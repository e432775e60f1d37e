//! Regional fare unions (Tarifverbünde): which union serves which municipality.
//!
//! This says *where* a regional tariff applies, not what it costs: each union
//! publishes its own zone plan and price table separately.

use crate::json::{
    field, items_in, lemma_field_trees, lemma_trees, parse_json, parsed_json, text_field, text_in,
    field_trees, tree, trees, Json, Tree,
};
use crate::sorting::{is_order, lemma_order_complete, placed_before, sort_order, Ranked};
use crate::stations::StopIndex;
use crate::text::{before, lemma_text_order, pieces, same, split, text_lt, texts, trim, trimmed};
use vstd::prelude::*;
use vstd::string::*;

verus! {

/// SBB's Tarifverbundkarte: every Swiss municipality with the fare unions that
/// serve it.
pub const TVK_URL: &'static str =
    "https://data.sbb.ch/api/explore/v2.1/catalog/datasets/tarifverbundkarte/exports/geojson";

/// A fare union.
#[derive(Debug)]
pub struct FareUnion {
    pub code: String,
    pub name: String,
    pub colour: String,
    pub url: String,
    /// Municipalities this union serves.
    pub municipalities: usize,
}

/// What a [`FareUnion`] holds.
pub struct UnionModel {
    pub code: Seq<char>,
    pub name: Seq<char>,
    pub colour: Seq<char>,
    pub url: Seq<char>,
    pub municipalities: nat,
}

impl View for FareUnion {
    type V = UnionModel;

    open spec fn view(&self) -> UnionModel {
        UnionModel {
            code: self.code@,
            name: self.name@,
            colour: self.colour@,
            url: self.url@,
            municipalities: self.municipalities as nat,
        }
    }
}

/// What is wrong with a Tarifverbundkarte.
#[derive(Debug, Clone, Copy, PartialEq, Eq, Structural)]
pub enum UnionError {
    /// The text is no JSON document.
    NotJson,
    /// The document has no list of features.
    NoFeatures,
}

/// The registry of fare unions.
#[derive(Debug)]
pub struct Registry {
    /// By municipalities served, most first, and by code where equal.
    pub unions: Vec<FareUnion>,
    /// Municipalities that any union serves.
    pub covered: usize,
    /// All municipalities.
    pub total: usize,
}

// --------------------------------------------------------------- partners

/// The documents among the first `k` parts of a text, in order. A part that is no
/// JSON document is left out.
pub open spec fn parsed_parts(parts: Seq<Seq<char>>, k: nat) -> Seq<Tree>
    decreases k,
{
    if k == 0 {
        Seq::empty()
    } else {
        let rest = parsed_parts(parts, (k - 1) as nat);
        match parsed_json(trimmed(parts[k - 1])) {
            Some(t) => rest.push(t),
            None => rest,
        }
    }
}

/// The partners of a municipality. They come as a list, as a single object, or as
/// a *string* holding one or more JSON objects joined by `;`.
pub open spec fn partners_in(t: Tree) -> Seq<Tree> {
    match t {
        Tree::List(items) => items,
        Tree::Object(_) => seq![t],
        Tree::Text(s) => parsed_parts(pieces(s, ';'), pieces(s, ';').len()),
        _ => Seq::empty(),
    }
}

fn copy_json(j: &Json) -> (r: Json)
    ensures
        tree(r) == tree(*j),
    decreases j,
{
    match j {
        Json::Null => Json::Null,
        Json::Bool(b) => Json::Bool(*b),
        Json::Number { text, whole } => Json::Number { text: text.clone(), whole: *whole },
        Json::Text(s) => Json::Text(s.clone()),
        Json::List(items) => {
            let mut out: Vec<Json> = Vec::new();
            let mut i: usize = 0;
            while i < items.len()
                invariant
                    *j == Json::List(*items),
                    i <= items@.len(),
                    out@.len() == i,
                    forall|k: int| 0 <= k < i ==> tree(#[trigger] out@[k]) == tree(items@[k]),
                decreases items@.len() - i,
            {
                assert(decreases_to!(*j => j->List_0));
                assert(decreases_to!(*items => items@));
                assert(decreases_to!(items@ => items@[i as int]));
                out.push(copy_json(&items[i]));
                i = i + 1;
            }
            proof {
                lemma_trees(out@);
                lemma_trees(items@);
                assert(trees(out@) =~= trees(items@));
            }
            Json::List(out)
        },
        Json::Object(fields) => {
            let mut out: Vec<(String, Json)> = Vec::new();
            let mut i: usize = 0;
            while i < fields.len()
                invariant
                    *j == Json::Object(*fields),
                    i <= fields@.len(),
                    out@.len() == i,
                    forall|k: int|
                        0 <= k < i ==> (#[trigger] out@[k]).0@ == fields@[k].0@ && tree(out@[k].1)
                            == tree(fields@[k].1),
                decreases fields@.len() - i,
            {
                let (key, value) = &fields[i];
                assert(decreases_to!(*j => j->Object_0));
                assert(decreases_to!(*fields => fields@));
                assert(decreases_to!(fields@ => fields@[i as int]));
                assert(decreases_to!(fields@[i as int] => fields@[i as int].1));
                out.push((key.clone(), copy_json(value)));
                i = i + 1;
            }
            proof {
                lemma_field_trees(out@);
                lemma_field_trees(fields@);
                assert(field_trees(out@) =~= field_trees(fields@));
            }
            Json::Object(out)
        },
    }
}

/// Reads the partners of a municipality.
pub fn partners_of(value: &Json) -> (r: Vec<Json>)
    ensures
        trees(r@) == partners_in(tree(*value)),
{
    let mut out: Vec<Json> = Vec::new();
    match value {
        Json::List(items) => {
            let mut i: usize = 0;
            while i < items.len()
                invariant
                    i <= items@.len(),
                    out@.len() == i,
                    forall|k: int| 0 <= k < i ==> tree(#[trigger] out@[k]) == tree(items@[k]),
                decreases items@.len() - i,
            {
                out.push(copy_json(&items[i]));
                i = i + 1;
            }
            proof {
                lemma_trees(out@);
                lemma_trees(items@);
                assert(trees(out@) =~= trees(items@));
            }
        },
        Json::Object(_) => {
            out.push(copy_json(value));
            proof {
                lemma_trees(out@);
                assert(trees(out@) =~= seq![tree(*value)]);
            }
        },
        Json::Text(s) => {
            let parts = split(s.as_str(), ';');
            let mut i: usize = 0;
            while i < parts.len()
                invariant
                    i <= parts@.len(),
                    trees(out@) == parsed_parts(texts(parts@), i as nat),
                decreases parts@.len() - i,
            {
                let ghost sofar = out@;
                if let Some(j) = parse_json(trim(parts[i].as_str())) {
                    out.push(j);
                    assert(out@.drop_last() =~= sofar);
                }
                i = i + 1;
            }
        },
        _ => {},
    }
    out
}

// --------------------------------------------------------------- registry

/// The text of a field, empty where there is none.
pub open spec fn text_or_empty(t: Tree, key: Seq<char>) -> Seq<char> {
    match text_in(field(t, key)) {
        Some(s) => s,
        None => Seq::empty(),
    }
}

/// Whether a partner names a union: it has its code, and a name.
pub open spec fn names_union(p: Tree, code: Seq<char>) -> bool {
    text_in(field(p, "code"@)) == Some(code) && text_in(field(p, "name"@)) is Some
}

/// Whether one of the first `k` partners of a municipality names a union.
pub open spec fn named_among(partners: Seq<Tree>, k: int, code: Seq<char>) -> bool {
    exists|j: int| 0 <= j < k && #[trigger] names_union(partners[j], code)
}

/// The unions with partner `k` of a municipality noted. A partner without a code
/// and a name is passed over, and so is one whose union the municipality has named
/// before: a municipality counts once. What a union is called is what its first
/// partner says.
pub open spec fn with_partner(
    by_code: Map<Seq<char>, UnionModel>,
    partners: Seq<Tree>,
    k: int,
) -> Map<Seq<char>, UnionModel> {
    let p = partners[k];
    match (text_in(field(p, "code"@)), text_in(field(p, "name"@))) {
        (Some(code), Some(name)) => if named_among(partners, k, code) {
            by_code
        } else if by_code.dom().contains(code) {
            by_code.insert(
                code,
                UnionModel { municipalities: by_code[code].municipalities + 1, ..by_code[code] },
            )
        } else {
            by_code.insert(
                code,
                UnionModel {
                    code,
                    name,
                    colour: text_or_empty(p, "colour"@),
                    url: text_or_empty(p, "url"@),
                    municipalities: 1,
                },
            )
        },
        _ => by_code,
    }
}

/// The unions with the first `k` partners of a municipality noted.
pub open spec fn with_partners(
    by_code: Map<Seq<char>, UnionModel>,
    partners: Seq<Tree>,
    k: nat,
) -> Map<Seq<char>, UnionModel>
    decreases k,
{
    if k == 0 {
        by_code
    } else {
        with_partner(with_partners(by_code, partners, (k - 1) as nat), partners, k - 1)
    }
}

/// The unions of the first `k` municipalities, given the partners of each.
pub open spec fn registered(partners: Seq<Seq<Tree>>, k: nat) -> Map<Seq<char>, UnionModel>
    decreases k,
{
    if k == 0 {
        Map::empty()
    } else {
        with_partners(
            registered(partners, (k - 1) as nat),
            partners[k - 1],
            partners[k - 1].len(),
        )
    }
}

/// How many of the first `k` municipalities have a partner.
pub open spec fn covered_upto(partners: Seq<Seq<Tree>>, k: nat) -> nat
    decreases k,
{
    if k == 0 {
        0
    } else {
        covered_upto(partners, (k - 1) as nat) + if partners[k - 1].len() > 0 {
            1nat
        } else {
            0
        }
    }
}

/// What a list of partner lists holds.
pub open spec fn partner_trees(v: Seq<Vec<Json>>) -> Seq<Seq<Tree>> {
    Seq::new(v.len(), |i: int| trees(v[i]@))
}

/// Whether a union comes before another: it serves more municipalities, or as many
/// and has the smaller code.
pub open spec fn union_lt(a: UnionModel, b: UnionModel) -> bool {
    a.municipalities > b.municipalities || (a.municipalities == b.municipalities && text_lt(
        a.code,
        b.code,
    ))
}

/// Whether a list holds each union of a map once, in order.
pub open spec fn lists_unions(
    unions: Seq<FareUnion>,
    by_code: Map<Seq<char>, UnionModel>,
) -> bool {
    &&& forall|i: int, j: int|
        #![trigger unions[i], unions[j]]
        0 <= i < j < unions.len() ==> union_lt(unions[i]@, unions[j]@)
    &&& forall|i: int|
        0 <= i < unions.len() ==> by_code.dom().contains((#[trigger] unions[i]).code@)
            && by_code[unions[i].code@] == unions[i]@
    &&& forall|code: Seq<char>| #[trigger]
        by_code.dom().contains(code) ==> has_code(unions, code)
}

/// Whether a list has a union with this code.
pub open spec fn has_code(unions: Seq<FareUnion>, code: Seq<char>) -> bool {
    exists|i: int| 0 <= i < unions.len() && (#[trigger] unions[i]).code@ == code
}

impl Ranked for FareUnion {
    open spec fn ranks_before(&self, other: &FareUnion) -> bool {
        union_lt(self@, other@)
    }

    proof fn lemma_ranking(a: &FareUnion, b: &FareUnion, c: &FareUnion) {
        lemma_text_order(a.code@, b.code@, c.code@);
        lemma_text_order(c.code@, b.code@, a.code@);
    }

    fn is_before(&self, other: &FareUnion) -> bool {
        self.municipalities > other.municipalities || (self.municipalities == other.municipalities
            && before(self.code.as_str(), other.code.as_str()))
    }
}

/// Whether a list in any order, with the place of each code, holds the unions of a
/// map.
spec fn holds_unions(
    unions: Seq<FareUnion>,
    places: Map<Seq<char>, usize>,
    by_code: Map<Seq<char>, UnionModel>,
) -> bool {
    &&& places.dom() =~= by_code.dom()
    &&& forall|code: Seq<char>| #[trigger]
        by_code.dom().contains(code) ==> places[code] < unions.len()
            && unions[places[code] as int].code@ == code
    &&& forall|i: int|
        0 <= i < unions.len() ==> {
            &&& by_code.dom().contains((#[trigger] unions[i]).code@)
            &&& by_code[unions[i].code@] == unions[i]@
            &&& places[unions[i].code@] == i
        }
}

fn text_of(p: &Json, key: &str) -> (r: String)
    ensures
        r@ == text_or_empty(tree(*p), key@),
{
    match text_field(p, key) {
        Some(s) => s.clone(),
        None => {
            let none = String::new();
            assert(none@ =~= Seq::empty());
            none
        },
    }
}

/// Whether every count of a map can be held.
spec fn counts_fit(by_code: Map<Seq<char>, UnionModel>) -> bool {
    forall|code: Seq<char>| #[trigger]
        by_code.dom().contains(code) ==> by_code[code].municipalities <= usize::MAX
}

/// Whether one of the first `k` partners of a municipality names a union.
fn is_named_among(partners: &Vec<Json>, k: usize, code: &str) -> (r: bool)
    requires
        k <= partners@.len(),
    ensures
        r == named_among(trees(partners@), k as int, code@),
{
    let ghost all = trees(partners@);
    proof {
        lemma_trees(partners@);
    }
    let mut j: usize = 0;
    while j < k
        invariant
            all == trees(partners@),
            forall|i: int| 0 <= i < partners@.len() ==> #[trigger] all[i] == tree(partners@[i]),
            j <= k <= partners@.len(),
            forall|i: int| 0 <= i < j ==> !#[trigger] names_union(all[i], code@),
        decreases k - j,
    {
        let p = &partners[j];
        assert(all[j as int] == tree(*p));
        if let (Some(found), Some(_)) = (text_field(p, "code"), text_field(p, "name")) {
            if same(found.as_str(), code) {
                assert(names_union(all[j as int], code@));
                return true;
            }
        }
        j = j + 1;
    }
    false
}

/// Notes partner `k` of a municipality.
fn note_partner(
    unions: &mut Vec<FareUnion>,
    places: &mut StopIndex,
    partners: &Vec<Json>,
    k: usize,
    by_code: Ghost<Map<Seq<char>, UnionModel>>,
)
    requires
        k < partners@.len(),
        holds_unions(old(unions)@, old(places)@, by_code@),
        counts_fit(with_partner(by_code@, trees(partners@), k as int)),
    ensures
        holds_unions(
            final(unions)@,
            final(places)@,
            with_partner(by_code@, trees(partners@), k as int),
        ),
{
    let p = &partners[k];
    proof {
        lemma_trees(partners@);
        assert(trees(partners@)[k as int] == tree(*p));
    }
    let ghost was = unions@;
    let ghost after = with_partner(by_code@, trees(partners@), k as int);
    if let (Some(code), Some(name)) = (text_field(p, "code"), text_field(p, "name")) {
        if is_named_among(partners, k, code.as_str()) {
            return ;
        }
        match places.get(code.as_str()) {
            Some(place) => {
                assert(by_code@.dom().contains(code@));
                let known: usize = unions[place].municipalities;
                assert(after.dom().contains(code@));
                unions[place].municipalities = known + 1;
                proof {
                    assert(unions@.len() == was.len());
                    assert forall|i: int| 0 <= i < unions@.len() implies {
                        &&& after.dom().contains((#[trigger] unions@[i]).code@)
                        &&& after[unions@[i].code@] == unions@[i]@
                        &&& places@[unions@[i].code@] == i
                    } by {
                        assert(by_code@.dom().contains(was[i].code@));
                        assert(places@[was[i].code@] == i);
                    }
                }
            },
            None => {
                assert(!by_code@.dom().contains(code@));
                places.insert(code.clone(), unions.len());
                unions.push(
                    FareUnion {
                        code: code.clone(),
                        name: name.clone(),
                        colour: text_of(p, "colour"),
                        url: text_of(p, "url"),
                        municipalities: 1,
                    },
                );
                proof {
                    assert forall|i: int| 0 <= i < unions@.len() implies {
                        &&& after.dom().contains((#[trigger] unions@[i]).code@)
                        &&& after[unions@[i].code@] == unions@[i]@
                        &&& places@[unions@[i].code@] == i
                    } by {
                        if i < was.len() {
                            assert(unions@[i] == was[i]);
                            assert(by_code@.dom().contains(was[i].code@));
                        }
                    }
                }
            },
        }
    }
}

/// Registers the fare unions of every municipality, given the partners of each.
pub fn register_unions(partners: &Vec<Vec<Json>>) -> (r: Registry)
    ensures
        lists_unions(r.unions@, registered(partner_trees(partners@), partners@.len())),
        r.covered == covered_upto(partner_trees(partners@), partners@.len()),
        r.total == partners@.len(),
{
    let ghost all = partner_trees(partners@);
    let mut unions: Vec<FareUnion> = Vec::new();
    let mut places = StopIndex::new();
    let mut covered: usize = 0;
    let mut i: usize = 0;
    while i < partners.len()
        invariant
            all == partner_trees(partners@),
            i <= partners@.len(),
            covered <= i,
            covered == covered_upto(all, i as nat),
            holds_unions(unions@, places@, registered(all, i as nat)),
        decreases partners@.len() - i,
    {
        let row = &partners[i];
        let ghost base = registered(all, i as nat);
        proof {
            lemma_trees(row@);
            assert(all[i as int] == trees(row@));
        }
        if row.len() > 0 {
            covered = covered + 1;
        }
        let mut k: usize = 0;
        while k < row.len()
            invariant
                k <= row@.len(),
                i < usize::MAX,
                i < all.len(),
                base == registered(all, i as nat),
                trees(row@).len() == row@.len(),
                forall|j: int| 0 <= j < row@.len() ==> #[trigger] trees(row@)[j] == tree(row@[j]),
                holds_unions(unions@, places@, with_partners(base, trees(row@), k as nat)),
            decreases row@.len() - k,
        {
            let ghost sofar = with_partners(base, trees(row@), k as nat);
            assert(trees(row@)[k as int] == tree(row@[k as int]));
            proof {
                let next = with_partners(base, trees(row@), (k + 1) as nat);
                assert forall|code: Seq<char>| #[trigger] next.dom().contains(code) implies
                    next[code].municipalities <= usize::MAX by {
                    law_municipalities_count_once(all, i as nat, code);
                    lemma_served_bound(all, i as nat, code);
                    lemma_partners_counted(base, trees(row@), (k + 1) as nat, code);
                }
            }
            note_partner(&mut unions, &mut places, row, k, Ghost(sofar));
            k = k + 1;
        }
        i = i + 1;
    }
    let order = sort_order(&unions);
    let ghost by_code = registered(all, partners@.len());
    let mut out: Vec<FareUnion> = Vec::new();
    let mut n: usize = 0;
    while n < order.len()
        invariant
            n <= order@.len(),
            is_order(unions@, order@),
            out@.len() == n,
            forall|x: int| 0 <= x < n ==> (#[trigger] out@[x])@ == unions@[order@[x] as int]@,
        decreases order@.len() - n,
    {
        let u = &unions[order[n]];
        out.push(
            FareUnion {
                code: u.code.clone(),
                name: u.name.clone(),
                colour: u.colour.clone(),
                url: u.url.clone(),
                municipalities: u.municipalities,
            },
        );
        n = n + 1;
    }
    proof {
        assert forall|x: int, y: int|
            #![trigger out@[x], out@[y]]
            0 <= x < y < out@.len() implies union_lt(out@[x]@, out@[y]@) by {
            let a = order@[x] as int;
            let b = order@[y] as int;
            assert(placed_before(unions@, a, b));
            assert(a != b);
            assert(places@[unions@[a].code@] == a);
            assert(places@[unions@[b].code@] == b);
            lemma_text_order(unions@[a].code@, unions@[b].code@, unions@[a].code@);
        }
        assert forall|x: int| 0 <= x < out@.len() implies by_code.dom().contains(
            (#[trigger] out@[x]).code@,
        ) && by_code[out@[x].code@] == out@[x]@ by {
            let a = order@[x] as int;
            assert(out@[x]@ == unions@[a]@);
            assert(by_code.dom().contains(unions@[a].code@));
        }
        assert forall|code: Seq<char>| #[trigger] by_code.dom().contains(code) implies has_code(
            out@,
            code,
        ) by {
            let a = places@[code] as int;
            assert(unions@[a].code@ == code);
            lemma_order_complete(unions@, order@, a);
            let x = choose|x: int| 0 <= x < order@.len() && #[trigger] order@[x] == a;
            assert(out@[x]@ == unions@[a]@);
        }
    }
    Registry { unions: out, covered, total: partners.len() }
}

// ------------------------------------------------------------ the document

/// The partners of every feature of a Tarifverbundkarte; nothing where it has no
/// list of features.
pub open spec fn partners_listed(t: Tree) -> Option<Seq<Seq<Tree>>> {
    match items_in(field(t, "features"@)) {
        Some(features) => Some(
            Seq::new(
                features.len(),
                |i: int|
                    partners_in(field(field(features[i], "properties"@), "partners_json"@)),
            ),
        ),
        None => None,
    }
}

fn feature_partners(feature: &Json) -> (r: Vec<Json>)
    ensures
        trees(r@) == partners_in(
            field(field(tree(*feature), "properties"@), "partners_json"@),
        ),
{
    match feature.get("properties") {
        Some(properties) => match properties.get("partners_json") {
            Some(value) => partners_of(value),
            None => Vec::new(),
        },
        None => Vec::new(),
    }
}

/// Reads the partners of every municipality of a Tarifverbundkarte.
pub fn read_partners(raw: &Json) -> (r: Option<Vec<Vec<Json>>>)
    ensures
        match r {
            Some(v) => partners_listed(tree(*raw)) == Some(partner_trees(v@)),
            None => partners_listed(tree(*raw)) is None,
        },
{
    let features = match raw.get("features") {
        Some(value) => match value.as_list() {
            Some(items) => items,
            None => {
                return None;
            },
        },
        None => {
            return None;
        },
    };
    let ghost all = trees(features@);
    proof {
        lemma_trees(features@);
    }
    let mut out: Vec<Vec<Json>> = Vec::new();
    let mut i: usize = 0;
    while i < features.len()
        invariant
            all == trees(features@),
            all.len() == features@.len(),
            forall|k: int| 0 <= k < features@.len() ==> #[trigger] all[k] == tree(features@[k]),
            i <= features@.len(),
            out@.len() == i,
            forall|k: int|
                0 <= k < i ==> trees((#[trigger] out@[k])@) == partners_in(
                    field(field(all[k], "properties"@), "partners_json"@),
                ),
        decreases features@.len() - i,
    {
        assert(all[i as int] == tree(features@[i as int]));
        out.push(feature_partners(&features[i]));
        i = i + 1;
    }
    assert(partner_trees(out@) =~= partners_listed(tree(*raw))->0);
    Some(out)
}

/// The registry that a Tarifverbundkarte gives, as partner lists, or what is wrong
/// with it.
pub open spec fn partners_of_text(text: Seq<char>) -> Result<Seq<Seq<Tree>>, UnionError> {
    match parsed_json(text) {
        None => Err(UnionError::NotJson),
        Some(t) => match partners_listed(t) {
            None => Err(UnionError::NoFeatures),
            Some(partners) => Ok(partners),
        },
    }
}

/// Extract the registry of fare unions and how many municipalities each covers.
pub fn build_fare_unions(text: &str) -> (r: Result<Registry, UnionError>)
    ensures
        match (r, partners_of_text(text@)) {
            (Ok(registry), Ok(partners)) => {
                &&& lists_unions(registry.unions@, registered(partners, partners.len()))
                &&& registry.covered == covered_upto(partners, partners.len())
                &&& registry.total == partners.len()
            },
            (Err(e), Err(f)) => e == f,
            _ => false,
        },
{
    match parse_json(text) {
        None => Err(UnionError::NotJson),
        Some(raw) => match read_partners(&raw) {
            None => Err(UnionError::NoFeatures),
            Some(partners) => Ok(register_unions(&partners)),
        },
    }
}

/// How many of the first `k` municipalities have a partner that names a union.
pub open spec fn served_by(partners: Seq<Seq<Tree>>, k: nat, code: Seq<char>) -> nat
    decreases k,
{
    if k == 0 {
        0
    } else {
        served_by(partners, (k - 1) as nat, code) + if named_among(
            partners[k - 1],
            partners[k - 1].len() as int,
            code,
        ) {
            1nat
        } else {
            0
        }
    }
}

proof fn lemma_served_bound(partners: Seq<Seq<Tree>>, k: nat, code: Seq<char>)
    ensures
        served_by(partners, k, code) <= k,
    decreases k,
{
    if k > 0 {
        lemma_served_bound(partners, (k - 1) as nat, code);
    }
}

/// How many municipalities a map has for a code, none where it has no union.
pub open spec fn count_in(by_code: Map<Seq<char>, UnionModel>, code: Seq<char>) -> nat {
    if by_code.dom().contains(code) {
        by_code[code].municipalities
    } else {
        0
    }
}

proof fn lemma_partners_counted(
    by_code: Map<Seq<char>, UnionModel>,
    partners: Seq<Tree>,
    k: nat,
    code: Seq<char>,
)
    requires
        k <= partners.len(),
        by_code.dom().contains(code) <==> count_in(by_code, code) > 0,
    ensures
        ({
            let after = with_partners(by_code, partners, k);
            &&& count_in(after, code) == count_in(by_code, code) + if named_among(
                partners,
                k as int,
                code,
            ) {
                1nat
            } else {
                0
            }
            &&& after.dom().contains(code) <==> count_in(after, code) > 0
        }),
    decreases k,
{
    if k > 0 {
        lemma_partners_counted(by_code, partners, (k - 1) as nat, code);
        assert(named_among(partners, k as int, code) <==> named_among(partners, k - 1, code)
            || names_union(partners[k - 1], code)) by {
            if named_among(partners, k - 1, code) {
                let j = choose|j: int|
                    0 <= j < k - 1 && #[trigger] names_union(partners[j], code);
                assert(names_union(partners[j], code));
            }
        }
    }
}

/// A union is registered exactly when some partner names it, and its municipalities
/// are those that have such a partner, each counted once.
pub proof fn law_municipalities_count_once(partners: Seq<Seq<Tree>>, k: nat, code: Seq<char>)
    requires
        k <= partners.len(),
    ensures
        registered(partners, k).dom().contains(code) <==> served_by(partners, k, code) > 0,
        registered(partners, k).dom().contains(code) ==> registered(partners, k)[code].municipalities
            == served_by(partners, k, code),
        count_in(registered(partners, k), code) == served_by(partners, k, code),
    decreases k,
{
    if k > 0 {
        law_municipalities_count_once(partners, (k - 1) as nat, code);
        lemma_partners_counted(
            registered(partners, (k - 1) as nat),
            partners[k - 1],
            partners[k - 1].len(),
            code,
        );
    }
}

/// Whether partner `j` of municipality `i` is the first of all to name a union.
pub open spec fn is_first_mention(
    partners: Seq<Seq<Tree>>,
    i: int,
    j: int,
    code: Seq<char>,
) -> bool {
    &&& 0 <= i < partners.len()
    &&& 0 <= j < partners[i].len()
    &&& names_union(partners[i][j], code)
    &&& !named_among(partners[i], j, code)
    &&& forall|x: int|
        0 <= x < i ==> !named_among(#[trigger] partners[x], partners[x].len() as int, code)
}

proof fn lemma_kept_within(
    by_code: Map<Seq<char>, UnionModel>,
    partners: Seq<Tree>,
    from: nat,
    k: nat,
    code: Seq<char>,
)
    requires
        from <= k,
        with_partners(by_code, partners, from).dom().contains(code),
    ensures
        ({
            let first = with_partners(by_code, partners, from)[code];
            let last = with_partners(by_code, partners, k);
            &&& last.dom().contains(code)
            &&& last[code] == UnionModel { municipalities: last[code].municipalities, ..first }
        }),
    decreases k,
{
    if from < k {
        lemma_kept_within(by_code, partners, from, (k - 1) as nat, code);
    }
}

proof fn lemma_kept_on(partners: Seq<Seq<Tree>>, from: nat, k: nat, code: Seq<char>)
    requires
        from <= k,
        registered(partners, from).dom().contains(code),
    ensures
        ({
            let first = registered(partners, from)[code];
            let last = registered(partners, k);
            &&& last.dom().contains(code)
            &&& last[code] == UnionModel { municipalities: last[code].municipalities, ..first }
        }),
    decreases k,
{
    if from < k {
        lemma_kept_on(partners, from, (k - 1) as nat, code);
        lemma_kept_within(
            registered(partners, (k - 1) as nat),
            partners[k - 1],
            0,
            partners[k - 1].len(),
            code,
        );
    }
}

/// What a union is called, its colour and its address are what its first mention
/// says, the latter two empty where that says nothing.
pub proof fn law_first_mention_names_a_union(
    partners: Seq<Seq<Tree>>,
    i: int,
    j: int,
    code: Seq<char>,
)
    requires
        is_first_mention(partners, i, j, code),
    ensures
        ({
            let by_code = registered(partners, partners.len());
            let p = partners[i][j];
            &&& by_code.dom().contains(code)
            &&& by_code[code].code == code
            &&& text_in(field(p, "name"@)) == Some(by_code[code].name)
            &&& by_code[code].colour == text_or_empty(p, "colour"@)
            &&& by_code[code].url == text_or_empty(p, "url"@)
        }),
{
    let base = registered(partners, i as nat);
    law_municipalities_count_once(partners, i as nat, code);
    lemma_unserved(partners, i as nat, code);
    lemma_partners_counted(base, partners[i], j as nat, code);
    lemma_kept_within(base, partners[i], (j + 1) as nat, partners[i].len(), code);
    lemma_kept_on(partners, (i + 1) as nat, partners.len(), code);
}

proof fn lemma_unserved(partners: Seq<Seq<Tree>>, k: nat, code: Seq<char>)
    requires
        forall|x: int|
            0 <= x < k ==> !named_among(#[trigger] partners[x], partners[x].len() as int, code),
    ensures
        served_by(partners, k, code) == 0,
    decreases k,
{
    if k > 0 {
        lemma_unserved(partners, (k - 1) as nat, code);
        assert(!named_among(partners[k - 1], partners[k - 1].len() as int, code));
    }
}

// ------------------------------------------------------ what the registry says

/// The partners of a municipality: the items of a list, a single object by itself, and
/// of a text every document among the parts between its semicolons, in their order.
pub proof fn law_partners_come_in_three_shapes(t: Tree)
    ensures
        t is List ==> partners_in(t) == t->List_0,
        t is Object ==> partners_in(t) == seq![t],
        t is Text ==> partners_in(t) == pieces(t->Text_0, ';').filter_map(
            |part: Seq<char>| parsed_json(trimmed(part)),
        ),
        !(t is List) && !(t is Object) && !(t is Text) ==> partners_in(t).len() == 0,
{
    if t is Text {
        let parts = pieces(t->Text_0, ';');
        lemma_parsed_parts(parts, parts.len());
        assert(parts.take(parts.len() as int) =~= parts);
    }
}

proof fn lemma_parsed_parts(parts: Seq<Seq<char>>, k: nat)
    requires
        k <= parts.len(),
    ensures
        parsed_parts(parts, k) == parts.take(k as int).filter_map(
            |part: Seq<char>| parsed_json(trimmed(part)),
        ),
    decreases k,
{
    if k > 0 {
        lemma_parsed_parts(parts, (k - 1) as nat);
        assert(parts.take(k as int).drop_last() =~= parts.take(k - 1));
        assert(parsed_parts(parts, k) =~= parts.take(k as int).filter_map(
            |part: Seq<char>| parsed_json(trimmed(part)),
        ));
    }
}

/// A union serves the municipalities that name it, by its code and with some name, each
/// counting once; a union is registered when any does.
pub proof fn law_a_union_serves_those_that_name_it(
    partners: Seq<Seq<Tree>>,
    k: nat,
    code: Seq<char>,
)
    requires
        k <= partners.len(),
    ensures
        ({
            let serving = partners.take(k as int).filter(
                |town: Seq<Tree>|
                    exists|j: int|
                        0 <= j < town.len() && text_in(field(#[trigger] town[j], "code"@)) == Some(
                            code,
                        ) && text_in(field(town[j], "name"@)) is Some,
            ).len();
            &&& registered(partners, k).dom().contains(code) <==> serving > 0
            &&& registered(partners, k).dom().contains(code) ==> registered(
                partners,
                k,
            )[code].municipalities == serving
        }),
{
    law_municipalities_count_once(partners, k, code);
    lemma_served_filter(partners, k, code);
}

proof fn lemma_served_filter(partners: Seq<Seq<Tree>>, k: nat, code: Seq<char>)
    requires
        k <= partners.len(),
    ensures
        served_by(partners, k, code) == partners.take(k as int).filter(
            |town: Seq<Tree>|
                exists|j: int|
                    0 <= j < town.len() && text_in(field(#[trigger] town[j], "code"@)) == Some(code)
                        && text_in(field(town[j], "name"@)) is Some,
        ).len(),
    decreases k,
{
    reveal(Seq::filter);
    if k > 0 {
        lemma_served_filter(partners, (k - 1) as nat, code);
        assert(partners.take(k as int).drop_last() =~= partners.take(k - 1));
        let town = partners[k - 1];
        if named_among(town, town.len() as int, code) {
            let j = choose|j: int| 0 <= j < town.len() && #[trigger] names_union(town[j], code);
            assert(text_in(field(town[j], "code"@)) == Some(code));
        }
        if exists|j: int|
            0 <= j < town.len() && text_in(field(#[trigger] town[j], "code"@)) == Some(code)
                && text_in(field(town[j], "name"@)) is Some {
            let j = choose|j: int|
                0 <= j < town.len() && text_in(field(#[trigger] town[j], "code"@)) == Some(code)
                    && text_in(field(town[j], "name"@)) is Some;
            assert(names_union(town[j], code));
        }
    }
}

/// A union goes by what its first mention says: its code and name, and its colour and
/// address where they are given.
pub proof fn law_a_union_goes_by_its_first_mention(
    partners: Seq<Seq<Tree>>,
    i: int,
    j: int,
    code: Seq<char>,
)
    requires
        0 <= i < partners.len(),
        0 <= j < partners[i].len(),
        text_in(field(partners[i][j], "code"@)) == Some(code),
        text_in(field(partners[i][j], "name"@)) is Some,
        forall|x: int|
            0 <= x < j ==> text_in(field(#[trigger] partners[i][x], "code"@)) != Some(code)
                || text_in(field(partners[i][x], "name"@)) is None,
        forall|x: int, y: int|
            0 <= x < i && 0 <= y < partners[x].len() ==> text_in(
                field(#[trigger] partners[x][y], "code"@),
            ) != Some(code) || text_in(field(partners[x][y], "name"@)) is None,
    ensures
        ({
            let union = registered(partners, partners.len())[code];
            let p = partners[i][j];
            &&& registered(partners, partners.len()).dom().contains(code)
            &&& union.code == code
            &&& Some(union.name) == text_in(field(p, "name"@))
            &&& union.colour == match text_in(field(p, "colour"@)) {
                Some(colour) => colour,
                None => Seq::empty(),
            }
            &&& union.url == match text_in(field(p, "url"@)) {
                Some(url) => url,
                None => Seq::empty(),
            }
        }),
{
    assert(names_union(partners[i][j], code));
    if named_among(partners[i], j, code) {
        let x = choose|x: int| 0 <= x < j && #[trigger] names_union(partners[i][x], code);
        assert(text_in(field(partners[i][x], "code"@)) == Some(code));
    }
    assert forall|x: int| 0 <= x < i implies !named_among(
        #[trigger] partners[x],
        partners[x].len() as int,
        code,
    ) by {
        if named_among(partners[x], partners[x].len() as int, code) {
            let y = choose|y: int|
                0 <= y < partners[x].len() && #[trigger] names_union(partners[x][y], code);
            assert(text_in(field(partners[x][y], "code"@)) == Some(code));
        }
    }
    assert(is_first_mention(partners, i, j, code));
    law_first_mention_names_a_union(partners, i, j, code);
}

/// A municipality is covered when it lists any partner.
pub proof fn law_covered_means_any_partner(partners: Seq<Seq<Tree>>, k: nat)
    requires
        k <= partners.len(),
    ensures
        covered_upto(partners, k) == partners.take(k as int).filter(
            |town: Seq<Tree>| town.len() > 0,
        ).len(),
    decreases k,
{
    reveal(Seq::filter);
    if k > 0 {
        law_covered_means_any_partner(partners, (k - 1) as nat);
        assert(partners.take(k as int).drop_last() =~= partners.take(k - 1));
    }
}

/// Unions come by how many municipalities they serve, most first, and by code where
/// equal; each is registered under its code.
pub proof fn law_unions_come_by_size(
    unions: Seq<FareUnion>,
    by_code: Map<Seq<char>, UnionModel>,
    i: int,
    j: int,
)
    requires
        lists_unions(unions, by_code),
        0 <= i < unions.len(),
        0 <= j < unions.len(),
    ensures
        i < j ==> unions[i].municipalities >= unions[j].municipalities,
        i < j && unions[i].municipalities == unions[j].municipalities ==> text_lt(
            unions[i].code@,
            unions[j].code@,
        ),
        by_code.dom().contains(unions[i].code@),
        by_code[unions[i].code@].name == unions[i].name@,
        by_code[unions[i].code@].colour == unions[i].colour@,
        by_code[unions[i].code@].url == unions[i].url@,
        by_code[unions[i].code@].municipalities == unions[i].municipalities,
{
    if i < j {
        assert(union_lt(unions[i]@, unions[j]@));
    }
}

/// Where a document lists its partners: under the properties of each feature.
pub proof fn law_partners_stand_under_properties(t: Tree, i: int)
    ensures
        ({
            let features = field(t, "features"@);
            &&& partners_listed(t) is Some <==> features is List
            &&& features is List ==> partners_listed(t)->0.len() == features->List_0.len()
            &&& features is List && 0 <= i < features->List_0.len() ==> partners_listed(t)->0[i]
                == partners_in(
                field(field(features->List_0[i], "properties"@), "partners_json"@),
            )
        }),
{
}

/// Every registered union is listed.
pub proof fn law_every_union_is_listed(
    unions: Seq<FareUnion>,
    by_code: Map<Seq<char>, UnionModel>,
    code: Seq<char>,
)
    requires
        lists_unions(unions, by_code),
        by_code.dom().contains(code),
    ensures
        exists|i: int| 0 <= i < unions.len() && (#[trigger] unions[i]).code@ == code,
{
    assert(has_code(unions, code));
}

/// A text that is no JSON document is told so, and so is a document whose features are
/// no list; the partners of any other are those of the document.
pub proof fn law_a_map_needs_features(text: Seq<char>)
    ensures
        ({
            let r = partners_of_text(text);
            &&& parsed_json(text) is None <==> r == Err::<Seq<Seq<Tree>>, UnionError>(
                UnionError::NotJson,
            )
            &&& (parsed_json(text) is Some && !(field(parsed_json(text)->0, "features"@) is List))
                <==> r == Err::<Seq<Seq<Tree>>, UnionError>(UnionError::NoFeatures)
            &&& r is Ok ==> Some(r->Ok_0) == partners_listed(parsed_json(text)->0)
        }),
{
}

} // verus!
