//! JSON documents as plain values.

use crate::text::same;
use vstd::prelude::*;

verus! {

/// A JSON value. Numbers are kept as `serde_json` displays them, beside their value
/// where it is a non-negative whole number of 64 bits.
#[derive(Debug)]
pub enum Json {
    Null,
    Bool(bool),
    Number { text: String, whole: Option<u64> },
    Text(String),
    List(Vec<Json>),
    Object(Vec<(String, Json)>),
}

/// What a JSON value holds.
pub enum Tree {
    Null,
    Bool(bool),
    Number { text: Seq<char>, whole: Option<u64> },
    Text(Seq<char>),
    List(Seq<Tree>),
    Object(Seq<(Seq<char>, Tree)>),
}

/// What a JSON value holds.
pub open spec fn tree(j: Json) -> Tree
    decreases j,
{
    match j {
        Json::Null => Tree::Null,
        Json::Bool(b) => Tree::Bool(b),
        Json::Number { text, whole } => Tree::Number { text: text@, whole },
        Json::Text(s) => Tree::Text(s@),
        Json::List(items) => Tree::List(trees(items@)),
        Json::Object(fields) => Tree::Object(field_trees(fields@)),
    }
}

/// What a list of JSON values holds.
pub open spec fn trees(s: Seq<Json>) -> Seq<Tree>
    decreases s,
{
    if s.len() == 0 {
        Seq::empty()
    } else {
        trees(s.drop_last()).push(tree(s.last()))
    }
}

/// What the fields of an object hold.
pub open spec fn field_trees(s: Seq<(String, Json)>) -> Seq<(Seq<char>, Tree)>
    decreases s,
{
    if s.len() == 0 {
        Seq::empty()
    } else {
        field_trees(s.drop_last()).push((s.last().0@, tree(s.last().1)))
    }
}

pub proof fn lemma_trees(s: Seq<Json>)
    ensures
        trees(s).len() == s.len(),
        forall|i: int| 0 <= i < s.len() ==> #[trigger] trees(s)[i] == tree(s[i]),
    decreases s.len(),
{
    if s.len() > 0 {
        lemma_trees(s.drop_last());
    }
}

pub proof fn lemma_field_trees(s: Seq<(String, Json)>)
    ensures
        field_trees(s).len() == s.len(),
        forall|i: int|
            0 <= i < s.len() ==> #[trigger] field_trees(s)[i] == (s[i].0@, tree(s[i].1)),
    decreases s.len(),
{
    if s.len() > 0 {
        lemma_field_trees(s.drop_last());
    }
}

// ---------------------------------------------------------------- reading

/// A JSON value of `serde_json`.
#[verifier::external_type_specification]
#[verifier::external_body]
pub struct ExValue(serde_json::Value);

/// What `serde_json::from_str` makes of a text: the value it stands for, or
/// nothing where the text is no JSON document.
pub uninterp spec fn parsed_json(text: Seq<char>) -> Option<Tree>;

/// What a value of `serde_json` holds.
pub uninterp spec fn value_tree(value: serde_json::Value) -> Tree;

/// `serde_json::from_str` into a value of any shape. The contract names what it
/// makes of the text, which depends on the text alone.
#[verifier::external_body]
fn read_value(text: &str) -> (r: Option<serde_json::Value>)
    ensures
        match r {
            Some(value) => parsed_json(text@) == Some(value_tree(value)),
            None => parsed_json(text@) is None,
        },
{
    serde_json::from_str(text).ok()
}

/// The outermost layer of a JSON value.
enum Layer {
    Null,
    Bool(bool),
    Number { text: String, whole: Option<u64> },
    Text(String),
    List(Vec<serde_json::Value>),
    Object(Vec<(String, serde_json::Value)>),
}

spec fn layer_tree(layer: Layer) -> Tree {
    match layer {
        Layer::Null => Tree::Null,
        Layer::Bool(b) => Tree::Bool(b),
        Layer::Number { text, whole } => Tree::Number { text: text@, whole },
        Layer::Text(s) => Tree::Text(s@),
        Layer::List(items) => Tree::List(Seq::new(items@.len(), |i: int| value_tree(items@[i]))),
        Layer::Object(fields) => Tree::Object(
            Seq::new(fields@.len(), |i: int| (fields@[i].0@, value_tree(fields@[i].1))),
        ),
    }
}

/// The variants of `serde_json::Value` told apart. Numbers are taken as
/// `serde_json::Number` displays them, beside its `as_u64`; the fields of an
/// object come in the order of its map. The contract claims that the layer holds
/// what the value does.
#[verifier::external_body]
fn open_value(value: serde_json::Value) -> (r: Layer)
    ensures
        layer_tree(r) == value_tree(value),
{
    match value {
        serde_json::Value::Null => Layer::Null,
        serde_json::Value::Bool(b) => Layer::Bool(b),
        serde_json::Value::Number(n) => Layer::Number { text: n.to_string(), whole: n.as_u64() },
        serde_json::Value::String(s) => Layer::Text(s),
        serde_json::Value::Array(items) => Layer::List(items),
        serde_json::Value::Object(fields) => Layer::Object(fields.into_iter().collect()),
    }
}

fn unpack(value: serde_json::Value) -> (r: Json)
    ensures
        tree(r) == value_tree(value),
    decreases value_tree(value),
{
    let ghost whole = value_tree(value);
    match open_value(value) {
        Layer::Null => Json::Null,
        Layer::Bool(b) => Json::Bool(b),
        Layer::Number { text, whole } => Json::Number { text, whole },
        Layer::Text(s) => Json::Text(s),
        Layer::List(items) => {
            let ghost all = items@;
            let ghost kids = Seq::new(all.len(), |i: int| value_tree(all[i]));
            assert(whole == Tree::List(kids));
            let mut rest = items;
            let mut back: Vec<Json> = Vec::new();
            while rest.len() > 0
                invariant
                    whole == value_tree(value),
                    whole == Tree::List(kids),
                    kids == Seq::new(all.len(), |i: int| value_tree(all[i])),
                    rest@ == all.take(rest@.len() as int),
                    rest@.len() <= all.len(),
                    back@.len() == all.len() - rest@.len(),
                    forall|i: int|
                        0 <= i < back@.len() ==> tree(#[trigger] back@[i]) == kids[all.len() - 1 - i],
                decreases rest@.len(),
            {
                let ghost n = rest@.len();
                if let Some(item) = rest.pop() {
                    assert(item == all[n - 1]);
                    assert(kids[n - 1] == value_tree(item));
                    assert(decreases_to!(whole => whole->List_0));
                    assert(decreases_to!(kids => kids[n - 1]));
                    back.push(unpack(item));
                    assert(rest@ =~= all.take(n - 1));
                }
            }
            let mut out: Vec<Json> = Vec::new();
            let ghost flipped = back@;
            while back.len() > 0
                invariant
                    flipped.len() == all.len(),
                    kids.len() == all.len(),
                    back@ == flipped.take(back@.len() as int),
                    back@.len() <= all.len(),
                    out@.len() == all.len() - back@.len(),
                    forall|i: int|
                        0 <= i < flipped.len() ==> tree(#[trigger] flipped[i])
                            == kids[all.len() - 1 - i],
                    forall|i: int| 0 <= i < out@.len() ==> tree(#[trigger] out@[i]) == kids[i],
                decreases back@.len(),
            {
                let ghost n = back@.len();
                if let Some(item) = back.pop() {
                    assert(item == flipped[n - 1]);
                    out.push(item);
                    assert(back@ =~= flipped.take(n - 1));
                }
            }
            proof {
                lemma_trees(out@);
                assert(trees(out@) =~= kids);
            }
            Json::List(out)
        },
        Layer::Object(fields) => {
            let ghost all = fields@;
            let ghost kids = Seq::new(
                all.len(),
                |i: int| (all[i].0@, value_tree(all[i].1)),
            );
            assert(whole == Tree::Object(kids));
            let mut rest = fields;
            let mut back: Vec<(String, Json)> = Vec::new();
            while rest.len() > 0
                invariant
                    whole == value_tree(value),
                    whole == Tree::Object(kids),
                    kids == Seq::new(all.len(), |i: int| (all[i].0@, value_tree(all[i].1))),
                    rest@ == all.take(rest@.len() as int),
                    rest@.len() <= all.len(),
                    back@.len() == all.len() - rest@.len(),
                    forall|i: int|
                        0 <= i < back@.len() ==> ((#[trigger] back@[i]).0@, tree(back@[i].1))
                            == kids[all.len() - 1 - i],
                decreases rest@.len(),
            {
                let ghost n = rest@.len();
                if let Some((key, item)) = rest.pop() {
                    assert((key, item) == all[n - 1]);
                    assert(kids[n - 1].1 == value_tree(item));
                    assert(decreases_to!(whole => whole->Object_0));
                    assert(decreases_to!(kids => kids[n - 1]));
                    assert(decreases_to!(kids[n - 1] => kids[n - 1].1));
                    back.push((key, unpack(item)));
                    assert(rest@ =~= all.take(n - 1));
                }
            }
            let mut out: Vec<(String, Json)> = Vec::new();
            let ghost flipped = back@;
            while back.len() > 0
                invariant
                    flipped.len() == all.len(),
                    kids.len() == all.len(),
                    back@ == flipped.take(back@.len() as int),
                    back@.len() <= all.len(),
                    out@.len() == all.len() - back@.len(),
                    forall|i: int|
                        0 <= i < flipped.len() ==> ((#[trigger] flipped[i]).0@, tree(flipped[i].1))
                            == kids[all.len() - 1 - i],
                    forall|i: int|
                        0 <= i < out@.len() ==> ((#[trigger] out@[i]).0@, tree(out@[i].1))
                            == kids[i],
                decreases back@.len(),
            {
                let ghost n = back@.len();
                if let Some(item) = back.pop() {
                    assert(item == flipped[n - 1]);
                    out.push(item);
                    assert(back@ =~= flipped.take(n - 1));
                }
            }
            proof {
                lemma_field_trees(out@);
                assert(field_trees(out@) =~= kids);
            }
            Json::Object(out)
        },
    }
}

/// Reads a JSON document.
pub fn parse_json(text: &str) -> (r: Option<Json>)
    ensures
        match r {
            Some(j) => parsed_json(text@) == Some(tree(j)),
            None => parsed_json(text@) is None,
        },
{
    match read_value(text) {
        Some(value) => Some(unpack(value)),
        None => None,
    }
}

// -------------------------------------------------------------- accessors

/// The value of the first field with this name, if there is one.
pub open spec fn lookup(fields: Seq<(Seq<char>, Tree)>, key: Seq<char>) -> Option<Tree>
    decreases fields.len(),
{
    if fields.len() == 0 {
        None
    } else if fields[0].0 == key {
        Some(fields[0].1)
    } else {
        lookup(fields.drop_first(), key)
    }
}

/// The field of an object, null where there is none.
pub open spec fn field(t: Tree, key: Seq<char>) -> Tree {
    match t {
        Tree::Object(fields) => match lookup(fields, key) {
            Some(value) => value,
            None => Tree::Null,
        },
        _ => Tree::Null,
    }
}

/// The text of a string, nothing for any other value.
pub open spec fn text_in(t: Tree) -> Option<Seq<char>> {
    match t {
        Tree::Text(s) => Some(s),
        _ => None,
    }
}

/// The items of a list, nothing for any other value.
pub open spec fn items_in(t: Tree) -> Option<Seq<Tree>> {
    match t {
        Tree::List(items) => Some(items),
        _ => None,
    }
}

/// The value of a non-negative whole number, nothing for any other value.
pub open spec fn whole_in(t: Tree) -> Option<u64> {
    match t {
        Tree::Number { whole, .. } => whole,
        _ => None,
    }
}

proof fn lemma_lookup_skips(fields: Seq<(Seq<char>, Tree)>, key: Seq<char>, i: int)
    requires
        0 <= i <= fields.len(),
        forall|j: int| 0 <= j < i ==> (#[trigger] fields[j]).0 != key,
    ensures
        lookup(fields, key) == lookup(fields.skip(i), key),
    decreases i,
{
    if i == 0 {
        assert(fields.skip(0) =~= fields);
    } else {
        let rest = fields.drop_first();
        assert(fields[0].0 != key);
        assert forall|j: int| 0 <= j < i - 1 implies (#[trigger] rest[j]).0 != key by {
            assert(rest[j] == fields[j + 1]);
        }
        lemma_lookup_skips(rest, key, i - 1);
        assert(rest.skip(i - 1) =~= fields.skip(i));
    }
}

impl Json {
    /// The field of an object, where there is one.
    pub fn get(&self, key: &str) -> (r: Option<&Json>)
        ensures
            match r {
                Some(j) => field(tree(*self), key@) == tree(*j),
                None => field(tree(*self), key@) == Tree::Null,
            },
    {
        match self {
            Json::Object(fields) => {
                let ghost all = field_trees(fields@);
                proof {
                    lemma_field_trees(fields@);
                }
                let mut i: usize = 0;
                while i < fields.len()
                    invariant
                        i <= fields@.len(),
                        all == field_trees(fields@),
                        all.len() == fields@.len(),
                        tree(*self) == Tree::Object(all),
                        forall|j: int|
                            0 <= j < fields@.len() ==> #[trigger] all[j] == (
                                fields@[j].0@,
                                tree(fields@[j].1),
                            ),
                        forall|j: int| 0 <= j < i ==> (#[trigger] all[j]).0 != key@,
                    decreases fields@.len() - i,
                {
                    let (name, value) = &fields[i];
                    assert(all[i as int] == (fields@[i as int].0@, tree(fields@[i as int].1)));
                    if same(name.as_str(), key) {
                        proof {
                            lemma_lookup_skips(all, key@, i as int);
                        }
                        return Some(value);
                    }
                    i = i + 1;
                }
                proof {
                    lemma_lookup_skips(all, key@, i as int);
                }
                None
            },
            _ => None,
        }
    }

    /// The items of a list.
    pub fn as_list(&self) -> (r: Option<&Vec<Json>>)
        ensures
            match r {
                Some(items) => items_in(tree(*self)) == Some(trees(items@)),
                None => items_in(tree(*self)) is None,
            },
    {
        match self {
            Json::List(items) => Some(items),
            _ => None,
        }
    }

    /// The text of a string.
    pub fn as_text(&self) -> (r: Option<&String>)
        ensures
            match r {
                Some(s) => text_in(tree(*self)) == Some(s@),
                None => text_in(tree(*self)) is None,
            },
    {
        match self {
            Json::Text(s) => Some(s),
            _ => None,
        }
    }

    /// The value of a non-negative whole number.
    pub fn as_whole(&self) -> (r: Option<u64>)
        ensures
            r == whole_in(tree(*self)),
    {
        match self {
            Json::Number { whole, .. } => *whole,
            _ => None,
        }
    }
}

/// The text of a field of an object.
pub fn text_field<'a>(j: &'a Json, key: &str) -> (r: Option<&'a String>)
    ensures
        match r {
            Some(s) => text_in(field(tree(*j), key@)) == Some(s@),
            None => text_in(field(tree(*j), key@)) is None,
        },
{
    match j.get(key) {
        Some(value) => value.as_text(),
        None => None,
    }
}

// ------------------------------------------------------- what documents hold

/// A field is looked up under the first entry with its name.
pub proof fn law_a_field_is_the_first_of_its_name(
    fields: Seq<(Seq<char>, Tree)>,
    key: Seq<char>,
) -> (i: int)
    ensures
        lookup(fields, key) is Some <==> exists|j: int|
            0 <= j < fields.len() && (#[trigger] fields[j]).0 == key,
        lookup(fields, key) is Some ==> {
            &&& 0 <= i < fields.len()
            &&& fields[i] == (key, lookup(fields, key)->0)
            &&& forall|j: int| 0 <= j < i ==> (#[trigger] fields[j]).0 != key
        },
        field(Tree::Object(fields), key) == if lookup(fields, key) is Some {
            fields[i].1
        } else {
            Tree::Null
        },
    decreases fields.len(),
{
    if fields.len() == 0 {
        0
    } else if fields[0].0 == key {
        assert(fields[0].0 == key);
        0
    } else {
        let rest = fields.drop_first();
        let k = law_a_field_is_the_first_of_its_name(rest, key);
        if lookup(rest, key) is Some {
            assert(fields[k + 1] == rest[k]);
            assert(fields[k + 1].0 == key);
            assert forall|j: int| 0 <= j < k + 1 implies (#[trigger] fields[j]).0 != key by {
                if j > 0 {
                    assert(rest[j - 1] == fields[j]);
                }
            }
        }
        if exists|j: int| 0 <= j < fields.len() && (#[trigger] fields[j]).0 == key {
            let j = choose|j: int| 0 <= j < fields.len() && (#[trigger] fields[j]).0 == key;
            assert(rest[j - 1] == fields[j]);
        }
        k + 1
    }
}

/// What a value is read as: only an object has fields, only a string is a text, only an
/// array is a list, and only a number is a whole number.
pub proof fn law_values_are_read_by_kind(t: Tree, key: Seq<char>)
    ensures
        !(t is Object) ==> field(t, key) == Tree::Null,
        text_in(t) is Some <==> t is Text,
        t is Text ==> text_in(t) == Some(t->Text_0),
        items_in(t) is Some <==> t is List,
        t is List ==> items_in(t) == Some(t->List_0),
        !(t is Number) ==> whole_in(t) is None,
        t is Number ==> whole_in(t) == t->whole,
{
}

/// A document's tree has the shape of the document.
pub proof fn law_a_tree_mirrors_its_document(j: Json, items: Seq<Json>, fields: Seq<(String, Json)>)
    ensures
        trees(items) == Seq::new(items.len(), |i: int| tree(items[i])),
        field_trees(fields) == Seq::new(fields.len(), |i: int| (fields[i].0@, tree(fields[i].1))),
        match j {
            Json::Null => tree(j) == Tree::Null,
            Json::Bool(b) => tree(j) == Tree::Bool(b),
            Json::Number { text, whole } => tree(j) == (Tree::Number { text: text@, whole }),
            Json::Text(s) => tree(j) == Tree::Text(s@),
            Json::List(list) => tree(j) == Tree::List(trees(list@)),
            Json::Object(list) => tree(j) == Tree::Object(field_trees(list@)),
        },
{
    lemma_trees_listed(items);
    lemma_fields_listed(fields);
}

proof fn lemma_trees_listed(items: Seq<Json>)
    ensures
        trees(items) == Seq::new(items.len(), |i: int| tree(items[i])),
    decreases items.len(),
{
    if items.len() > 0 {
        lemma_trees_listed(items.drop_last());
    }
    assert(trees(items) =~= Seq::new(items.len(), |i: int| tree(items[i])));
}

proof fn lemma_fields_listed(fields: Seq<(String, Json)>)
    ensures
        field_trees(fields) == Seq::new(fields.len(), |i: int| (fields[i].0@, tree(fields[i].1))),
    decreases fields.len(),
{
    if fields.len() > 0 {
        lemma_fields_listed(fields.drop_last());
    }
    assert(field_trees(fields) =~= Seq::new(
        fields.len(),
        |i: int| (fields[i].0@, tree(fields[i].1)),
    ));
}

} // verus!
