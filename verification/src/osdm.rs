//! The national tariff: priced relations and the price-per-distance curve.
//!
//! opentransportdata.swiss publishes a machine-readable subset of Swiss public
//! transport fares. It carries, per relation, the tariff distance, the permitted
//! via-route and the actual price by class and reduction card. It is a *subset*: a
//! few hundred stations, so it calibrates and validates the distance-to-price
//! model rather than replacing it.
//!
//! Prices are whole numbers of whatever unit the caller counts in.

use crate::sorting::{
    lemma_perm_multiset, never_falls, sort_order, sorted, sorted_numbers, sorts, taken, Ranked,
};
use crate::text::{before, lemma_text_order, same, text_lt, texts};
use vstd::hash_map::StringHashMap;
use vstd::multiset::Multiset;
use vstd::prelude::*;

verus! {

/// OSDM offline file, published by the SKI business office.
pub const OSDM_DATASET: &'static str =
    "https://data.opentransportdata.swiss/en/dataset/osdm-offline";

pub const OSDM_URL: &'static str =
    "https://data.opentransportdata.swiss/dataset/75399276-72f9-4542-a781-8901326befb2/resource/f58119bb-6d19-4619-ab8f-e6a0bf250667/download/osdm_delivery_10_7.zip";

// ----------------------------------------------------------- input shapes

/// A price of the delivery; `amount` is that of its first entry, if any.
#[derive(Debug, Clone)]
pub struct PriceEntry {
    pub id: String,
    pub amount: Option<u64>,
}

/// What a relation costs for one kind of passenger.
#[derive(Debug, Clone)]
pub struct Fare {
    pub price_ref: String,
    pub region_ref: String,
    pub class: String,
    pub passenger: String,
    pub reduction: Option<String>,
}

/// A relation of the delivery. Each validity may give a via-route, whose points
/// may name a station.
#[derive(Debug, Clone)]
pub struct RegionalConstraint {
    pub id: String,
    pub entry: Option<String>,
    pub exit: Option<String>,
    pub distance: Option<u32>,
    pub validity: Vec<Option<Vec<Option<String>>>>,
}

// ---------------------------------------------------------- output shapes

/// A station of the delivery.
#[derive(Debug, Clone)]
pub struct Station {
    pub uic: String,
    pub name: String,
}

/// One priced relation: a permitted route between two stations, its tariff
/// distance, and what it actually costs.
#[derive(Debug, Clone)]
pub struct Relation {
    pub from: String,
    pub to: String,
    /// Tariff kilometres, not geographic distance.
    pub km: u32,
    /// UIC codes of the via-route this price is valid for.
    pub route: Vec<String>,
    /// Adult full fare, 2nd then 1st class.
    pub adult2: Option<u64>,
    pub adult1: Option<u64>,
    /// Adult with Halbtax.
    pub half2: Option<u64>,
    pub half1: Option<u64>,
    pub child2: Option<u64>,
}

/// The empirical price-per-distance curve, with the spread at each distance.
///
/// The spread is the point: the same tariff distance does not always cost the
/// same, because operators apply surcharges on some routes. Anything downstream
/// that prices by distance alone must publish this error, not hide it.
#[derive(Debug, Clone, Copy)]
pub struct DistanceRow {
    pub km: u32,
    pub n: usize,
    pub min2: u64,
    pub median2: u64,
    pub max2: u64,
    pub min1: Option<u64>,
    pub median1: Option<u64>,
    pub max1: Option<u64>,
}

// ------------------------------------------------------------ fare columns

/// The fare columns of one relation.
#[derive(Debug, Clone, Copy)]
pub struct Columns {
    pub adult2: Option<u64>,
    pub adult1: Option<u64>,
    pub half2: Option<u64>,
    pub half1: Option<u64>,
    pub child2: Option<u64>,
}

#[derive(Debug, Clone, Copy, PartialEq, Eq, Structural)]
pub enum Slot {
    Adult2,
    Adult1,
    Half2,
    Half1,
    Child2,
}

/// The price of each id, the last one where an id has several.
pub open spec fn price_map(prices: Seq<PriceEntry>, k: nat) -> Map<Seq<char>, u64>
    decreases k,
{
    if k == 0 {
        Map::empty()
    } else {
        let rest = price_map(prices, (k - 1) as nat);
        match prices[k - 1].amount {
            Some(amount) => rest.insert(prices[k - 1].id@, amount),
            None => rest,
        }
    }
}

/// The column a fare belongs to, if it is one of those kept.
pub open spec fn slot_of(fare: Fare) -> Option<Slot> {
    let basic = fare.class@ == "BASIC"@;
    let high = fare.class@ == "HIGH"@;
    if fare.passenger@ == "ADULT"@ && fare.reduction is None && basic {
        Some(Slot::Adult2)
    } else if fare.passenger@ == "ADULT"@ && fare.reduction is None && high {
        Some(Slot::Adult1)
    } else if fare.passenger@ == "ADULT"@ && fare.reduction is Some && fare.reduction->0@
        == "HALBTAX_CONSTRAINT"@ && basic {
        Some(Slot::Half2)
    } else if fare.passenger@ == "ADULT"@ && fare.reduction is Some && fare.reduction->0@
        == "HALBTAX_CONSTRAINT"@ && high {
        Some(Slot::Half1)
    } else if fare.passenger@ == "CHILD"@ && fare.reduction is None && basic {
        Some(Slot::Child2)
    } else {
        None
    }
}

/// A relation nothing is known of yet.
pub open spec fn no_columns() -> Columns {
    Columns { adult2: None, adult1: None, half2: None, half1: None, child2: None }
}

/// The columns with one price filled in.
pub open spec fn with_price(c: Columns, slot: Slot, price: u64) -> Columns {
    match slot {
        Slot::Adult2 => Columns { adult2: Some(price), ..c },
        Slot::Adult1 => Columns { adult1: Some(price), ..c },
        Slot::Half2 => Columns { half2: Some(price), ..c },
        Slot::Half1 => Columns { half1: Some(price), ..c },
        Slot::Child2 => Columns { child2: Some(price), ..c },
    }
}

/// The columns of every relation that the first `k` fares give a price of.
pub open spec fn columns_map(
    prices: Map<Seq<char>, u64>,
    fares: Seq<Fare>,
    k: nat,
) -> Map<Seq<char>, Columns>
    decreases k,
{
    if k == 0 {
        Map::empty()
    } else {
        let rest = columns_map(prices, fares, (k - 1) as nat);
        let fare = fares[k - 1];
        match slot_of(fare) {
            Some(slot) => if prices.dom().contains(fare.price_ref@) {
                let known = if rest.dom().contains(fare.region_ref@) {
                    rest[fare.region_ref@]
                } else {
                    no_columns()
                };
                rest.insert(
                    fare.region_ref@,
                    with_price(known, slot, prices[fare.price_ref@]),
                )
            } else {
                rest
            },
            None => rest,
        }
    }
}

fn read_prices(prices: &Vec<PriceEntry>) -> (r: StringHashMap<u64>)
    ensures
        r@ == price_map(prices@, prices@.len()),
{
    let mut map: StringHashMap<u64> = StringHashMap::new();
    let mut i: usize = 0;
    while i < prices.len()
        invariant
            i <= prices@.len(),
            map@ == price_map(prices@, i as nat),
        decreases prices@.len() - i,
    {
        if let Some(amount) = prices[i].amount {
            map.insert(prices[i].id.clone(), amount);
        }
        i = i + 1;
    }
    map
}

fn find_slot(fare: &Fare) -> (r: Option<Slot>)
    ensures
        r == slot_of(*fare),
{
    proof {
        reveal_strlit("ADULT");
        reveal_strlit("CHILD");
        reveal_strlit("BASIC");
        reveal_strlit("HIGH");
        assert("ADULT"@[0] != "CHILD"@[0]);
        assert("BASIC"@.len() != "HIGH"@.len());
    }
    let adult = same(fare.passenger.as_str(), "ADULT");
    let child = same(fare.passenger.as_str(), "CHILD");
    let basic = same(fare.class.as_str(), "BASIC");
    let high = same(fare.class.as_str(), "HIGH");
    match &fare.reduction {
        None => if adult && basic {
            Some(Slot::Adult2)
        } else if adult && high {
            Some(Slot::Adult1)
        } else if child && basic {
            Some(Slot::Child2)
        } else {
            None
        },
        Some(reduction) => if adult && same(reduction.as_str(), "HALBTAX_CONSTRAINT") {
            if basic {
                Some(Slot::Half2)
            } else if high {
                Some(Slot::Half1)
            } else {
                None
            }
        } else {
            None
        },
    }
}

fn read_columns(prices: &StringHashMap<u64>, fares: &Vec<Fare>) -> (r: StringHashMap<Columns>)
    ensures
        r@ == columns_map(prices@, fares@, fares@.len()),
{
    let mut map: StringHashMap<Columns> = StringHashMap::new();
    let mut i: usize = 0;
    while i < fares.len()
        invariant
            i <= fares@.len(),
            map@ == columns_map(prices@, fares@, i as nat),
        decreases fares@.len() - i,
    {
        let fare = &fares[i];
        if let Some(at) = prices.get(fare.price_ref.as_str()) {
            let price: u64 = *at;
            if let Some(slot) = find_slot(fare) {
                let mut known = match map.get(fare.region_ref.as_str()) {
                    Some(c) => *c,
                    None => Columns {
                        adult2: None,
                        adult1: None,
                        half2: None,
                        half1: None,
                        child2: None,
                    },
                };
                match slot {
                    Slot::Adult2 => {
                        known.adult2 = Some(price);
                    },
                    Slot::Adult1 => {
                        known.adult1 = Some(price);
                    },
                    Slot::Half2 => {
                        known.half2 = Some(price);
                    },
                    Slot::Half1 => {
                        known.half1 = Some(price);
                    },
                    Slot::Child2 => {
                        known.child2 = Some(price);
                    },
                }
                map.insert(fare.region_ref.clone(), known);
            }
        }
        i = i + 1;
    }
    map
}

// -------------------------------------------------------------- relations

/// What a [`Relation`] holds.
pub struct RelationModel {
    pub from: Seq<char>,
    pub to: Seq<char>,
    pub km: u32,
    pub route: Seq<Seq<char>>,
    pub columns: Columns,
}

impl View for Relation {
    type V = RelationModel;

    open spec fn view(&self) -> RelationModel {
        RelationModel {
            from: self.from@,
            to: self.to@,
            km: self.km,
            route: texts(self.route@),
            columns: Columns {
                adult2: self.adult2,
                adult1: self.adult1,
                half2: self.half2,
                half1: self.half1,
                child2: self.child2,
            },
        }
    }
}

/// The contents of a list of relations.
pub open spec fn relation_models(v: Seq<Relation>) -> Seq<RelationModel> {
    Seq::new(v.len(), |i: int| v[i]@)
}

/// The stations that the first `k` points of a route name.
pub open spec fn named_points(route: Seq<Option<String>>, k: nat) -> Seq<Seq<char>>
    decreases k,
{
    if k == 0 {
        Seq::empty()
    } else {
        match route[k - 1] {
            Some(code) => named_points(route, (k - 1) as nat).push(code@),
            None => named_points(route, (k - 1) as nat),
        }
    }
}

/// The via-route of a relation: that of its first validity.
pub open spec fn route_of(rc: RegionalConstraint) -> Seq<Seq<char>> {
    if rc.validity@.len() == 0 {
        Seq::empty()
    } else {
        match rc.validity@[0] {
            Some(route) => named_points(route@, route@.len()),
            None => Seq::empty(),
        }
    }
}

/// Whether a relation is complete and has a price.
pub open spec fn is_priced(rc: RegionalConstraint, columns: Map<Seq<char>, Columns>) -> bool {
    rc.entry is Some && rc.exit is Some && rc.distance is Some && columns.dom().contains(rc.id@)
}

/// The priced relations among the first `k`, in the order of the delivery.
pub open spec fn listed_relations(
    constraints: Seq<RegionalConstraint>,
    columns: Map<Seq<char>, Columns>,
    k: nat,
) -> Seq<RelationModel>
    decreases k,
{
    if k == 0 {
        Seq::empty()
    } else {
        let rest = listed_relations(constraints, columns, (k - 1) as nat);
        let rc = constraints[k - 1];
        if is_priced(rc, columns) {
            rest.push(
                RelationModel {
                    from: rc.entry->0@,
                    to: rc.exit->0@,
                    km: rc.distance->0,
                    route: route_of(rc),
                    columns: columns[rc.id@],
                },
            )
        } else {
            rest
        }
    }
}

/// Relations are ordered by distance, then by where they start and end.
pub open spec fn relation_lt(a: RelationModel, b: RelationModel) -> bool {
    a.km < b.km || (a.km == b.km && (text_lt(a.from, b.from) || (a.from == b.from && text_lt(
        a.to,
        b.to,
    ))))
}

impl Ranked for Relation {
    open spec fn ranks_before(&self, other: &Relation) -> bool {
        relation_lt(self@, other@)
    }

    proof fn lemma_ranking(a: &Relation, b: &Relation, c: &Relation) {
        lemma_text_order(a@.from, b@.from, c@.from);
        lemma_text_order(a@.to, b@.to, c@.to);
        lemma_text_order(b@.from, a@.from, c@.from);
        lemma_text_order(b@.to, a@.to, c@.to);
        lemma_text_order(c@.from, b@.from, a@.from);
        lemma_text_order(c@.to, b@.to, a@.to);
    }

    fn is_before(&self, other: &Relation) -> bool {
        self.km < other.km || (self.km == other.km && (before(
            self.from.as_str(),
            other.from.as_str(),
        ) || (same(self.from.as_str(), other.from.as_str()) && before(
            self.to.as_str(),
            other.to.as_str(),
        ))))
    }
}

fn read_route(rc: &RegionalConstraint) -> (r: Vec<String>)
    ensures
        texts(r@) == route_of(*rc),
{
    let mut out: Vec<String> = Vec::new();
    assert(texts(out@) =~= Seq::empty());
    if rc.validity.len() > 0 {
        if let Some(route) = &rc.validity[0] {
            let mut i: usize = 0;
            while i < route.len()
                invariant
                    i <= route@.len(),
                    texts(out@) == named_points(route@, i as nat),
                decreases route@.len() - i,
            {
                let ghost sofar = texts(out@);
                if let Some(code) = &route[i] {
                    out.push(code.clone());
                    assert(texts(out@) =~= sofar.push(code@));
                }
                i = i + 1;
            }
        }
    }
    out
}

fn copy_relation(r: &Relation) -> (c: Relation)
    ensures
        c@ == r@,
{
    let mut route: Vec<String> = Vec::new();
    let mut i: usize = 0;
    while i < r.route.len()
        invariant
            i <= r.route@.len(),
            route@.len() == i,
            forall|k: int| 0 <= k < i ==> (#[trigger] route@[k])@ == r.route@[k]@,
        decreases r.route@.len() - i,
    {
        route.push(r.route[i].clone());
        i = i + 1;
    }
    assert(texts(route@) =~= texts(r.route@));
    Relation {
        from: r.from.clone(),
        to: r.to.clone(),
        km: r.km,
        route,
        adult2: r.adult2,
        adult1: r.adult1,
        half2: r.half2,
        half1: r.half1,
        child2: r.child2,
    }
}

/// What the delivery's relations are.
pub open spec fn delivered_relations(
    prices: Seq<PriceEntry>,
    fares: Seq<Fare>,
    constraints: Seq<RegionalConstraint>,
) -> Seq<RelationModel> {
    listed_relations(
        constraints,
        columns_map(price_map(prices, prices.len()), fares, fares.len()),
        constraints.len(),
    )
}

/// Whether `order` is the order in which relations are sorted.
pub open spec fn is_relation_order(listed: Seq<RelationModel>, order: Seq<usize>) -> bool {
    sorts(listed.len(), |a: int, b: int| relation_lt(listed[a], listed[b]), order)
}

/// Whether a list of relations is another one sorted.
pub open spec fn sorts_relations(listed: Seq<RelationModel>, out: Seq<RelationModel>) -> bool {
    exists|order: Seq<usize>|
        {
            &&& #[trigger] is_relation_order(listed, order)
            &&& out == taken(listed, order)
        }
}

/// The priced relations of a delivery, by distance, then by start and end.
pub fn build_relations(
    prices: &Vec<PriceEntry>,
    fares: &Vec<Fare>,
    constraints: &Vec<RegionalConstraint>,
) -> (r: Vec<Relation>)
    ensures
        sorts_relations(
            delivered_relations(prices@, fares@, constraints@),
            relation_models(r@),
        ),
{
    let price_of = read_prices(prices);
    let columns = read_columns(&price_of, fares);
    let mut listed: Vec<Relation> = Vec::new();
    assert(relation_models(listed@) =~= Seq::empty());
    let mut i: usize = 0;
    while i < constraints.len()
        invariant
            i <= constraints@.len(),
            relation_models(listed@) == listed_relations(constraints@, columns@, i as nat),
        decreases constraints@.len() - i,
    {
        let rc = &constraints[i];
        let ghost sofar = relation_models(listed@);
        if let (Some(from), Some(to), Some(km)) = (&rc.entry, &rc.exit, rc.distance) {
            if let Some(c) = columns.get(rc.id.as_str()) {
                let relation = Relation {
                    from: from.clone(),
                    to: to.clone(),
                    km,
                    route: read_route(rc),
                    adult2: c.adult2,
                    adult1: c.adult1,
                    half2: c.half2,
                    half1: c.half1,
                    child2: c.child2,
                };
                let ghost shown = relation@;
                listed.push(relation);
                assert(relation_models(listed@) =~= sofar.push(shown));
            }
        }
        i = i + 1;
    }
    let order = sort_order(&listed);
    let mut out: Vec<Relation> = Vec::new();
    let ghost models = relation_models(listed@);
    assert(relation_models(out@) =~= taken(models, order@).take(0));
    let mut k: usize = 0;
    while k < order.len()
        invariant
            k <= order@.len(),
            models == relation_models(listed@),
            forall|j: int| 0 <= j < order@.len() ==> #[trigger] order@[j] < listed@.len(),
            relation_models(out@) == taken(models, order@).take(k as int),
        decreases order@.len() - k,
    {
        let ghost sofar = relation_models(out@);
        out.push(copy_relation(&listed[order[k]]));
        assert(relation_models(out@) =~= sofar.push(models[order@[k as int] as int]));
        assert(taken(models, order@).take(k + 1) =~= taken(models, order@).take(k as int).push(
            models[order@[k as int] as int],
        ));
        k = k + 1;
    }
    proof {
        assert(relation_models(out@) =~= taken(models, order@));
        assert(is_relation_order(models, order@)) by {
            assert forall|i: int, j: int|
                #![trigger order@[i], order@[j]]
                0 <= i < j < order@.len() implies relation_lt(
                models[order@[i] as int],
                models[order@[j] as int],
            ) || (!relation_lt(models[order@[j] as int], models[order@[i] as int]) && order@[i]
                < order@[j]) by {
                assert(crate::sorting::placed_before(
                    listed@,
                    order@[i] as int,
                    order@[j] as int,
                ));
            }
        }
    }
    out
}

// ------------------------------------------------------------- the curve

/// The prices of one class among the first `k` relations of a distance.
pub open spec fn prices_at(rels: Seq<RelationModel>, k: nat, km: u32, first: bool) -> Seq<u64>
    decreases k,
{
    if k == 0 {
        Seq::empty()
    } else {
        let rest = prices_at(rels, (k - 1) as nat, km, first);
        let r = rels[k - 1];
        let price = if first {
            r.columns.adult1
        } else {
            r.columns.adult2
        };
        match price {
            Some(p) => if r.km == km {
                rest.push(p)
            } else {
                rest
            },
            None => rest,
        }
    }
}

/// Whether `m` stands in the middle of these prices once they are sorted; the
/// upper middle where there are two.
pub open spec fn is_median(prices: Seq<u64>, m: u64) -> bool {
    exists|s: Seq<u64>|
        {
            &&& #[trigger] never_falls(s)
            &&& s.to_multiset() == prices.to_multiset()
            &&& 0 <= s.len() / 2 < s.len()
            &&& m == s[(s.len() / 2) as int]
        }
}

/// Whether `lo` and `hi` are the least and the greatest of these prices.
pub open spec fn spans(prices: Seq<u64>, lo: u64, hi: u64) -> bool {
    &&& prices.contains(lo)
    &&& prices.contains(hi)
    &&& forall|i: int| 0 <= i < prices.len() ==> lo <= #[trigger] prices[i] <= hi
}

/// Whether a row sums up the prices of both classes at its distance.
pub open spec fn is_row(row: DistanceRow, second: Seq<u64>, first: Seq<u64>) -> bool {
    &&& row.n == second.len()
    &&& spans(second, row.min2, row.max2)
    &&& is_median(second, row.median2)
    &&& if first.len() == 0 {
        row.min1 is None && row.median1 is None && row.max1 is None
    } else {
        &&& row.min1 is Some && row.median1 is Some && row.max1 is Some
        &&& spans(first, row.min1->0, row.max1->0)
        &&& is_median(first, row.median1->0)
    }
}

/// Whether a distance has a row: some relation of that distance, which is not
/// zero, has a second-class price.
pub open spec fn has_row(rels: Seq<RelationModel>, km: u32) -> bool {
    km > 0 && prices_at(rels, rels.len(), km, false).len() > 0
}

/// Whether `curve` is the price curve of these relations: one row per distance,
/// the shortest first.
pub open spec fn is_curve(rels: Seq<RelationModel>, curve: Seq<DistanceRow>) -> bool {
    &&& forall|i: int, j: int|
        #![trigger curve[i], curve[j]]
        0 <= i < j < curve.len() ==> curve[i].km < curve[j].km
    &&& forall|i: int|
        0 <= i < curve.len() ==> {
            &&& has_row(rels, (#[trigger] curve[i]).km)
            &&& is_row(
                curve[i],
                prices_at(rels, rels.len(), curve[i].km, false),
                prices_at(rels, rels.len(), curve[i].km, true),
            )
        }
    &&& forall|km: u32| #[trigger]
        has_row(rels, km) ==> exists|i: int| 0 <= i < curve.len() && (#[trigger] curve[i]).km == km
}

/// The middle of a list of prices, and its ends.
fn sum_up(prices: &Vec<u64>) -> (r: (u64, u64, u64))
    requires
        prices@.len() > 0,
    ensures
        spans(prices@, r.0, r.2),
        is_median(prices@, r.1),
{
    broadcast use vstd::seq_lib::group_to_multiset_ensures;

    let s = sorted_numbers(prices);
    let n: usize = s.len();
    proof {
        assert(s@.len() == s@.to_multiset().len());
        assert(prices@.len() == prices@.to_multiset().len());
        assert forall|x: u64| #[trigger] prices@.contains(x) <==> s@.contains(x) by {
            assert(prices@.to_multiset().contains(x) <==> prices@.contains(x));
            assert(s@.to_multiset().contains(x) <==> s@.contains(x));
        }
        assert(s@.contains(s@[0]));
        assert(s@.contains(s@[n - 1]));
        assert forall|i: int| 0 <= i < prices@.len() implies s@[0] <= #[trigger] prices@[i]
            <= s@[n - 1] by {
            assert(prices@.contains(prices@[i]));
            let j = choose|j: int| 0 <= j < s@.len() && s@[j] == prices@[i];
            assert(s@[0] <= s@[j] <= s@[n - 1]);
        }
        assert(never_falls(s@));
    }
    (s[0], s[n / 2], s[n - 1])
}

proof fn lemma_no_prices(rels: Seq<RelationModel>, lo: nat, hi: nat, km: u32, first: bool)
    requires
        lo <= hi <= rels.len(),
        forall|i: int| lo <= i < hi ==> (#[trigger] rels[i]).km != km,
    ensures
        prices_at(rels, hi, km, first) == prices_at(rels, lo, km, first),
    decreases hi,
{
    if lo < hi {
        lemma_no_prices(rels, lo, (hi - 1) as nat, km, first);
    }
}

/// Whether relations come by distance, the shortest first.
pub open spec fn by_distance(rels: Seq<RelationModel>) -> bool {
    forall|i: int, j: int|
        #![trigger rels[i], rels[j]]
        0 <= i <= j < rels.len() ==> rels[i].km <= rels[j].km
}

/// The empirical price curve of relations that come by distance.
pub fn price_curve(relations: &Vec<Relation>) -> (r: Vec<DistanceRow>)
    requires
        by_distance(relation_models(relations@)),
    ensures
        is_curve(relation_models(relations@), r@),
{
    let ghost rels = relation_models(relations@);
    let mut curve: Vec<DistanceRow> = Vec::new();
    let mut i: usize = 0;
    while i < relations.len()
        invariant
            rels == relation_models(relations@),
            by_distance(rels),
            i <= relations@.len(),
            i == 0 || i == relations@.len() || rels[i - 1].km < rels[i as int].km,
            forall|a: int, b: int|
                #![trigger curve@[a], curve@[b]]
                0 <= a < b < curve@.len() ==> curve@[a].km < curve@[b].km,
            forall|a: int|
                0 <= a < curve@.len() ==> {
                    &&& has_row(rels, (#[trigger] curve@[a]).km)
                    &&& is_row(
                        curve@[a],
                        prices_at(rels, rels.len(), curve@[a].km, false),
                        prices_at(rels, rels.len(), curve@[a].km, true),
                    )
                },
            forall|a: int| 0 <= a < curve@.len() ==> i > 0 && (#[trigger] curve@[a]).km <= rels[i
                - 1].km,
            forall|km: u32| #[trigger]
                has_row(rels, km) && i > 0 && km <= rels[i - 1].km ==> exists|a: int|
                    0 <= a < curve@.len() && (#[trigger] curve@[a]).km == km,
        decreases relations@.len() - i,
    {
        let km: u32 = relations[i].km;
        let ghost start = i;
        let ghost old_curve = curve@;
        assert(rels[start as int].km == km);
        let mut second: Vec<u64> = Vec::new();
        let mut first: Vec<u64> = Vec::new();
        proof {
            assert forall|x: int| 0 <= x < start implies (#[trigger] rels[x]).km != km by {
                assert(rels[x].km <= rels[start - 1].km);
            }
            lemma_no_prices(rels, 0, start as nat, km, false);
            lemma_no_prices(rels, 0, start as nat, km, true);
        }
        while i < relations.len() && relations[i].km == km
            invariant
                rels == relation_models(relations@),
                start <= i <= relations@.len(),
                forall|x: int| start <= x < i ==> (#[trigger] rels[x]).km == km,
                second@ == prices_at(rels, i as nat, km, false),
                first@ == prices_at(rels, i as nat, km, true),
            decreases relations@.len() - i,
        {
            assert(rels[i as int] == relations@[i as int]@);
            if let Some(p) = relations[i].adult2 {
                second.push(p);
            }
            if let Some(p) = relations[i].adult1 {
                first.push(p);
            }
            i = i + 1;
        }
        proof {
            assert(start < i);
            assert(rels[i - 1].km == km);
            if i < rels.len() {
                assert(rels[i as int] == relations@[i as int]@);
                assert(rels[i - 1].km <= rels[i as int].km);
            }
            assert forall|x: int| i <= x < rels.len() implies (#[trigger] rels[x]).km != km by {
                assert(rels[i as int].km <= rels[x].km);
            }
            lemma_no_prices(rels, i as nat, rels.len(), km, false);
            lemma_no_prices(rels, i as nat, rels.len(), km, true);
        }
        if km > 0 && second.len() > 0 {
            let (min2, median2, max2) = sum_up(&second);
            let (min1, median1, max1) = if first.len() > 0 {
                let (lo, mid, hi) = sum_up(&first);
                (Some(lo), Some(mid), Some(hi))
            } else {
                (None, None, None)
            };
            curve.push(
                DistanceRow { km, n: second.len(), min2, median2, max2, min1, median1, max1 },
            );
        }
        proof {
            assert forall|other: u32| #[trigger] has_row(rels, other) && other <= rels[i - 1].km
                implies exists|a: int| 0 <= a < curve@.len() && (#[trigger] curve@[a]).km == other by {
                if other == km {
                    assert(curve@[old_curve.len() as int].km == other);
                } else {
                    if start == 0 || other > rels[start - 1].km {
                        assert forall|x: int| 0 <= x < rels.len() implies (#[trigger] rels[x]).km
                            != other by {
                            if x < start {
                                assert(rels[x].km <= rels[start - 1].km);
                            } else if x >= i {
                                assert(rels[i as int].km <= rels[x].km);
                                assert(rels[i - 1].km <= rels[i as int].km);
                            }
                        }
                        lemma_no_prices(rels, 0, rels.len(), other, false);
                        assert(false);
                    }
                    let a = choose|a: int|
                        0 <= a < old_curve.len() && (#[trigger] old_curve[a]).km == other;
                    assert(curve@[a].km == other);
                }
            }
            assert forall|a: int| 0 <= a < curve@.len() implies (#[trigger] curve@[a]).km <= rels[i
                - 1].km by {
                if a < old_curve.len() {
                    assert(old_curve[a].km <= rels[start - 1].km);
                    assert(rels[start - 1].km < rels[start as int].km);
                }
            }
            assert forall|a: int, b: int|
                #![trigger curve@[a], curve@[b]]
                0 <= a < b < curve@.len() implies curve@[a].km < curve@[b].km by {
                assert(old_curve[a].km <= rels[start - 1].km);
            }
        }
    }
    proof {
        assert forall|km: u32| #[trigger] has_row(rels, km) implies exists|a: int|
            0 <= a < curve@.len() && (#[trigger] curve@[a]).km == km by {
            if rels.len() == 0 {
                assert(false);
            }
            if km > rels[rels.len() - 1].km {
                assert forall|x: int| 0 <= x < rels.len() implies (#[trigger] rels[x]).km != km by {
                    assert(rels[x].km <= rels[rels.len() - 1].km);
                }
                lemma_no_prices(rels, 0, rels.len(), km, false);
                assert(false);
            }
        }
    }
    curve
}

/// Sorted relations come by distance.
pub proof fn lemma_sorted_by_distance(listed: Seq<RelationModel>, out: Seq<RelationModel>)
    requires
        sorts_relations(listed, out),
    ensures
        by_distance(out),
{
    let order = choose|order: Seq<usize>|
        {
            &&& #[trigger] is_relation_order(listed, order)
            &&& out == taken(listed, order)
        };
    assert forall|i: int, j: int|
        #![trigger out[i], out[j]]
        0 <= i <= j < out.len() implies out[i].km <= out[j].km by {
        if i < j {
            assert(relation_lt(listed[order[i] as int], listed[order[j] as int]) || !relation_lt(
                listed[order[j] as int],
                listed[order[i] as int],
            ));
        }
    }
}

// ---------------------------------------------------------- the stations

/// A station as sequences.
pub open spec fn station_model(s: Station) -> (Seq<char>, Seq<char>) {
    (s.uic@, s.name@)
}

/// The contents of a list of stations.
pub open spec fn station_models(v: Seq<Station>) -> Seq<(Seq<char>, Seq<char>)> {
    Seq::new(v.len(), |i: int| station_model(v[i]))
}

impl Ranked for Station {
    open spec fn ranks_before(&self, other: &Station) -> bool {
        text_lt(self.uic@, other.uic@)
    }

    proof fn lemma_ranking(a: &Station, b: &Station, c: &Station) {
        lemma_text_order(a.uic@, b.uic@, c.uic@);
        lemma_text_order(c.uic@, b.uic@, a.uic@);
    }

    fn is_before(&self, other: &Station) -> bool {
        before(self.uic.as_str(), other.uic.as_str())
    }
}

/// Whether `order` is the order of UIC numbers.
pub open spec fn is_uic_order(listed: Seq<(Seq<char>, Seq<char>)>, order: Seq<usize>) -> bool {
    sorts(listed.len(), |a: int, b: int| text_lt(listed[a].0, listed[b].0), order)
}

/// Whether a list of stations is another one sorted by UIC number.
pub open spec fn sorts_stations(
    listed: Seq<(Seq<char>, Seq<char>)>,
    out: Seq<(Seq<char>, Seq<char>)>,
) -> bool {
    exists|order: Seq<usize>|
        {
            &&& #[trigger] is_uic_order(listed, order)
            &&& out == taken(listed, order)
        }
}

/// The stations of a delivery by UIC number.
pub fn build_stations(stations: &Vec<Station>) -> (r: Vec<Station>)
    ensures
        sorts_stations(station_models(stations@), station_models(r@)),
{
    let order = sort_order(stations);
    let ghost models = station_models(stations@);
    let mut out: Vec<Station> = Vec::new();
    assert(station_models(out@) =~= taken(models, order@).take(0));
    let mut k: usize = 0;
    while k < order.len()
        invariant
            k <= order@.len(),
            models == station_models(stations@),
            forall|j: int| 0 <= j < order@.len() ==> #[trigger] order@[j] < stations@.len(),
            station_models(out@) == taken(models, order@).take(k as int),
        decreases order@.len() - k,
    {
        let ghost sofar = station_models(out@);
        let s = &stations[order[k]];
        out.push(Station { uic: s.uic.clone(), name: s.name.clone() });
        assert(station_models(out@) =~= sofar.push(models[order@[k as int] as int]));
        assert(taken(models, order@).take(k + 1) =~= taken(models, order@).take(k as int).push(
            models[order@[k as int] as int],
        ));
        k = k + 1;
    }
    proof {
        assert(station_models(out@) =~= taken(models, order@));
        assert(is_uic_order(models, order@)) by {
            assert forall|i: int, j: int|
                #![trigger order@[i], order@[j]]
                0 <= i < j < order@.len() implies text_lt(
                models[order@[i] as int].0,
                models[order@[j] as int].0,
            ) || (!text_lt(models[order@[j] as int].0, models[order@[i] as int].0) && order@[i]
                < order@[j]) by {
                assert(crate::sorting::placed_before(
                    stations@,
                    order@[i] as int,
                    order@[j] as int,
                ));
            }
        }
    }
    out
}

// ------------------------------------------------------------ the spread

/// A share, as a fraction. A share of nothing counts as infinite.
#[derive(Debug, Clone, Copy, PartialEq, Eq, Structural)]
pub struct Ratio {
    pub num: u64,
    pub den: u64,
}

/// Whether one share is less than another.
pub open spec fn ratio_lt(a: Ratio, b: Ratio) -> bool {
    a.den != 0 && (b.den == 0 || a.num * b.den < b.num * a.den)
}

impl Ranked for Ratio {
    open spec fn ranks_before(&self, other: &Ratio) -> bool {
        ratio_lt(*self, *other)
    }

    proof fn lemma_ranking(a: &Ratio, b: &Ratio, c: &Ratio) {
        let (x, y, z) = (*a, *b, *c);
        if x.den != 0 && y.den != 0 && z.den != 0 {
            assert(x.num * y.den < y.num * x.den && y.num * z.den < z.num * y.den ==> x.num * z.den
                < z.num * x.den) by (nonlinear_arith)
                requires
                    x.den > 0,
                    y.den > 0,
                    z.den > 0,
            ;
            assert(x.num * y.den >= y.num * x.den && y.num * z.den >= z.num * y.den ==> x.num
                * z.den >= z.num * x.den) by (nonlinear_arith)
                requires
                    x.den > 0,
                    y.den > 0,
                    z.den > 0,
            ;
        }
    }

    fn is_before(&self, other: &Ratio) -> bool {
        if self.den == 0 {
            return false;
        }
        if other.den == 0 {
            return true;
        }
        less_product(self.num, other.den, other.num, self.den)
    }
}

/// Whether `a * b < c * d`.
fn less_product(a: u64, b: u64, c: u64, d: u64) -> (r: bool)
    ensures
        r == (a * b < c * d),
{
    proof {
        lemma_product_fits(a, b);
        lemma_product_fits(c, d);
    }
    (a as u128) * (b as u128) < (c as u128) * (d as u128)
}

proof fn lemma_product_fits(a: u64, b: u64)
    ensures
        0 <= a * b <= u128::MAX,
{
    assert(0 <= a * b <= 0xffff_ffff_ffff_ffff * 0xffff_ffff_ffff_ffff) by (nonlinear_arith)
        requires
            0 <= a <= 0xffff_ffff_ffff_ffff,
            0 <= b <= 0xffff_ffff_ffff_ffff,
    ;
}

/// How badly distance alone predicts price.
#[derive(Debug)]
pub struct Spread {
    /// Priced relations.
    pub total: u128,
    /// Relations at a distance with more than one price.
    pub ambiguous: u128,
    /// The largest difference of prices at one distance.
    pub worst: u64,
    /// The difference at each such distance as a share of the median price,
    /// the smallest first.
    pub shares: Vec<Ratio>,
}

/// How many relations the first `k` rows stand for; only those with more than
/// one price, if asked for.
pub open spec fn relation_count(curve: Seq<DistanceRow>, k: nat, spread: bool) -> nat
    decreases k,
{
    if k == 0 {
        0
    } else {
        relation_count(curve, (k - 1) as nat, spread) + if !spread || curve[k - 1].max2 > curve[k
            - 1].min2 {
            curve[k - 1].n as nat
        } else {
            0
        }
    }
}

/// The shares of the first `k` rows that have more than one price.
pub open spec fn row_shares(curve: Seq<DistanceRow>, k: nat) -> Seq<Ratio>
    decreases k,
{
    if k == 0 {
        Seq::empty()
    } else {
        let rest = row_shares(curve, (k - 1) as nat);
        let row = curve[k - 1];
        if row.max2 > row.min2 {
            rest.push(Ratio { num: (row.max2 - row.min2) as u64, den: row.median2 })
        } else {
            rest
        }
    }
}

/// The largest difference of prices in the first `k` rows.
pub open spec fn worst_spread(curve: Seq<DistanceRow>, k: nat) -> nat
    decreases k,
{
    if k == 0 {
        0
    } else {
        let rest = worst_spread(curve, (k - 1) as nat);
        let row = curve[k - 1];
        if row.max2 > row.min2 && row.max2 - row.min2 > rest {
            (row.max2 - row.min2) as nat
        } else {
            rest
        }
    }
}

/// Measures how badly distance alone predicts price.
pub fn measure_spread(curve: &Vec<DistanceRow>) -> (r: Spread)
    ensures
        r.total == relation_count(curve@, curve@.len(), false),
        r.ambiguous == relation_count(curve@, curve@.len(), true),
        r.worst == worst_spread(curve@, curve@.len()),
        r.shares@ == sorted(row_shares(curve@, curve@.len())),
{
    let mut total: u128 = 0;
    let mut ambiguous: u128 = 0;
    let mut worst: u64 = 0;
    let mut listed: Vec<Ratio> = Vec::new();
    let mut i: usize = 0;
    while i < curve.len()
        invariant
            i <= curve@.len(),
            total == relation_count(curve@, i as nat, false),
            total <= i * 0xffff_ffff_ffff_ffff,
            ambiguous == relation_count(curve@, i as nat, true),
            ambiguous <= total,
            worst == worst_spread(curve@, i as nat),
            listed@ == row_shares(curve@, i as nat),
        decreases curve@.len() - i,
    {
        let row = curve[i];
        assert(row.n <= 0xffff_ffff_ffff_ffff);
        assert(i * 0xffff_ffff_ffff_ffff + 0xffff_ffff_ffff_ffff <= 0xffff_ffff_ffff_ffff
            * 0xffff_ffff_ffff_ffff + 0xffff_ffff_ffff_ffff) by (nonlinear_arith)
            requires
                i <= 0xffff_ffff_ffff_ffff,
        ;
        total = total + row.n as u128;
        if row.max2 > row.min2 {
            ambiguous = ambiguous + row.n as u128;
            let gap: u64 = row.max2 - row.min2;
            if gap > worst {
                worst = gap;
            }
            listed.push(Ratio { num: gap, den: row.median2 });
        }
        i = i + 1;
    }
    let order = sort_order(&listed);
    let mut shares: Vec<Ratio> = Vec::new();
    let mut k: usize = 0;
    while k < order.len()
        invariant
            k <= order@.len(),
            forall|j: int| 0 <= j < order@.len() ==> #[trigger] order@[j] < listed@.len(),
            shares@ == taken(listed@, order@).take(k as int),
        decreases order@.len() - k,
    {
        shares.push(listed[order[k]]);
        assert(shares@ =~= taken(listed@, order@).take(k + 1));
        k = k + 1;
    }
    assert(shares@ =~= taken(listed@, order@));
    Spread { total, ambiguous, worst, shares }
}

// ---------------------------------------------------- what a delivery says

/// The price of an id is that of the last entry under it that has an amount.
pub proof fn law_last_amount_is_the_price(prices: Seq<PriceEntry>, k: nat, id: Seq<char>)
    requires
        k <= prices.len(),
    ensures
        ({
            let amounts = prices.take(k as int).filter_map(
                |p: PriceEntry|
                    if p.id@ == id {
                        p.amount
                    } else {
                        None
                    },
            );
            &&& price_map(prices, k).dom().contains(id) <==> amounts.len() > 0
            &&& amounts.len() > 0 ==> price_map(prices, k)[id] == amounts.last()
        }),
    decreases k,
{
    if k > 0 {
        law_last_amount_is_the_price(prices, (k - 1) as nat, id);
        assert(prices.take(k as int).drop_last() =~= prices.take(k - 1));
    }
}

/// Which column a fare fills: adults without a card in second (basic) and first
/// (high) class, adults with a Halbtax card in either, and children in second class.
pub proof fn law_columns_follow_passenger_card_and_class(fare: Fare)
    ensures
        ({
            let adult = fare.passenger@ == "ADULT"@;
            let child = fare.passenger@ == "CHILD"@;
            let plain = fare.reduction is None;
            let half = fare.reduction is Some && fare.reduction->0@ == "HALBTAX_CONSTRAINT"@;
            let basic = fare.class@ == "BASIC"@;
            let high = fare.class@ == "HIGH"@;
            &&& slot_of(fare) == Some(Slot::Adult2) <==> adult && plain && basic
            &&& slot_of(fare) == Some(Slot::Adult1) <==> adult && plain && high
            &&& slot_of(fare) == Some(Slot::Half2) <==> adult && half && basic
            &&& slot_of(fare) == Some(Slot::Half1) <==> adult && half && high
            &&& slot_of(fare) == Some(Slot::Child2) <==> child && plain && basic
        }),
{
    reveal_strlit("ADULT");
    reveal_strlit("CHILD");
    reveal_strlit("BASIC");
    reveal_strlit("HIGH");
    assert("ADULT"@[0] != "CHILD"@[0]);
    assert("BASIC"@[0] != "HIGH"@[0]);
}

/// What a region costs: each column holds the price of the last fare that is for this
/// passenger, card and class and whose price is known; a region has columns when any
/// such fare is for it.
pub proof fn law_a_column_holds_its_last_fare(
    prices: Map<Seq<char>, u64>,
    fares: Seq<Fare>,
    k: nat,
    region: Seq<char>,
)
    requires
        k <= fares.len(),
    ensures
        ({
            let adult2 = fares.take(k as int).filter_map(
                |f: Fare|
                    if f.region_ref@ == region && prices.dom().contains(f.price_ref@)
                        && f.passenger@ == "ADULT"@ && f.reduction is None && f.class@ == "BASIC"@ {
                        Some(prices[f.price_ref@])
                    } else {
                        None
                    },
            );
            let adult1 = fares.take(k as int).filter_map(
                |f: Fare|
                    if f.region_ref@ == region && prices.dom().contains(f.price_ref@)
                        && f.passenger@ == "ADULT"@ && f.reduction is None && f.class@ == "HIGH"@ {
                        Some(prices[f.price_ref@])
                    } else {
                        None
                    },
            );
            let half2 = fares.take(k as int).filter_map(
                |f: Fare|
                    if f.region_ref@ == region && prices.dom().contains(f.price_ref@)
                        && f.passenger@ == "ADULT"@ && f.reduction is Some && f.reduction->0@
                        == "HALBTAX_CONSTRAINT"@ && f.class@ == "BASIC"@ {
                        Some(prices[f.price_ref@])
                    } else {
                        None
                    },
            );
            let half1 = fares.take(k as int).filter_map(
                |f: Fare|
                    if f.region_ref@ == region && prices.dom().contains(f.price_ref@)
                        && f.passenger@ == "ADULT"@ && f.reduction is Some && f.reduction->0@
                        == "HALBTAX_CONSTRAINT"@ && f.class@ == "HIGH"@ {
                        Some(prices[f.price_ref@])
                    } else {
                        None
                    },
            );
            let child2 = fares.take(k as int).filter_map(
                |f: Fare|
                    if f.region_ref@ == region && prices.dom().contains(f.price_ref@)
                        && f.passenger@ == "CHILD"@ && f.reduction is None && f.class@ == "BASIC"@ {
                        Some(prices[f.price_ref@])
                    } else {
                        None
                    },
            );
            let map = columns_map(prices, fares, k);
            let c = map[region];
            &&& map.dom().contains(region) <==> adult2.len() + adult1.len() + half2.len()
                + half1.len() + child2.len() > 0
            &&& map.dom().contains(region) ==> {
                &&& c.adult2 is Some <==> adult2.len() > 0
                &&& c.adult1 is Some <==> adult1.len() > 0
                &&& c.half2 is Some <==> half2.len() > 0
                &&& c.half1 is Some <==> half1.len() > 0
                &&& c.child2 is Some <==> child2.len() > 0
                &&& c.adult2 is Some ==> c.adult2->0 == adult2.last()
                &&& c.adult1 is Some ==> c.adult1->0 == adult1.last()
                &&& c.half2 is Some ==> c.half2->0 == half2.last()
                &&& c.half1 is Some ==> c.half1->0 == half1.last()
                &&& c.child2 is Some ==> c.child2->0 == child2.last()
            }
        }),
    decreases k,
{
    if k > 0 {
        law_a_column_holds_its_last_fare(prices, fares, (k - 1) as nat, region);
        assert(fares.take(k as int).drop_last() =~= fares.take(k - 1));
        law_columns_follow_passenger_card_and_class(fares[k - 1]);
    }
}

/// Every constraint with both ends, a distance and at least one price becomes a
/// relation, in their order, with the stations that the first via-route names.
pub proof fn law_priced_constraints_become_relations(
    constraints: Seq<RegionalConstraint>,
    columns: Map<Seq<char>, Columns>,
    k: nat,
)
    requires
        k <= constraints.len(),
    ensures
        listed_relations(constraints, columns, k) == constraints.take(k as int).filter_map(
            |rc: RegionalConstraint|
                if rc.entry is Some && rc.exit is Some && rc.distance is Some
                    && columns.dom().contains(rc.id@) {
                    Some(
                        RelationModel {
                            from: rc.entry->0@,
                            to: rc.exit->0@,
                            km: rc.distance->0,
                            route: if rc.validity@.len() > 0 && rc.validity@[0] is Some {
                                rc.validity@[0]->0@.filter_map(
                                    |point: Option<String>|
                                        match point {
                                            Some(code) => Some(code@),
                                            None => None,
                                        },
                                )
                            } else {
                                Seq::empty()
                            },
                            columns: columns[rc.id@],
                        },
                    )
                } else {
                    None
                },
        ),
    decreases k,
{
    if k > 0 {
        law_priced_constraints_become_relations(constraints, columns, (k - 1) as nat);
        assert(constraints.take(k as int).drop_last() =~= constraints.take(k - 1));
        let rc = constraints[k - 1];
        if rc.validity@.len() > 0 && rc.validity@[0] is Some {
            let route = rc.validity@[0]->0@;
            lemma_named_points(route, route.len());
            assert(route.take(route.len() as int) =~= route);
        }
        assert(listed_relations(constraints, columns, k) =~= constraints.take(
            k as int,
        ).filter_map(
            |rc: RegionalConstraint|
                if rc.entry is Some && rc.exit is Some && rc.distance is Some
                    && columns.dom().contains(rc.id@) {
                    Some(
                        RelationModel {
                            from: rc.entry->0@,
                            to: rc.exit->0@,
                            km: rc.distance->0,
                            route: if rc.validity@.len() > 0 && rc.validity@[0] is Some {
                                rc.validity@[0]->0@.filter_map(
                                    |point: Option<String>|
                                        match point {
                                            Some(code) => Some(code@),
                                            None => None,
                                        },
                                )
                            } else {
                                Seq::empty()
                            },
                            columns: columns[rc.id@],
                        },
                    )
                } else {
                    None
                },
        ));
    }
}

proof fn lemma_named_points(route: Seq<Option<String>>, k: nat)
    requires
        k <= route.len(),
    ensures
        named_points(route, k) == route.take(k as int).filter_map(
            |point: Option<String>|
                match point {
                    Some(code) => Some(code@),
                    None => None,
                },
        ),
    decreases k,
{
    if k > 0 {
        lemma_named_points(route, (k - 1) as nat);
        assert(route.take(k as int).drop_last() =~= route.take(k - 1));
        assert(named_points(route, k) =~= route.take(k as int).filter_map(
            |point: Option<String>|
                match point {
                    Some(code) => Some(code@),
                    None => None,
                },
        ));
    }
}

/// What a relation is known by: its ends, distance, route and five prices, each its
/// own.
pub proof fn law_a_relation_is_its_fields(r: Relation)
    ensures
        r@.from == r.from@,
        r@.to == r.to@,
        r@.km == r.km,
        r@.route == Seq::new(r.route@.len(), |i: int| r.route@[i]@),
        r@.columns.adult2 == r.adult2,
        r@.columns.adult1 == r.adult1,
        r@.columns.half2 == r.half2,
        r@.columns.half1 == r.half1,
        r@.columns.child2 == r.child2,
{
    assert(r@.route =~= Seq::new(r.route@.len(), |i: int| r.route@[i]@));
}

/// Relations come by distance, then by the stations' numbers, and none is lost or
/// added.
pub proof fn law_relations_come_by_distance_then_ends(
    listed: Seq<RelationModel>,
    out: Seq<RelationModel>,
)
    requires
        sorts_relations(listed, out),
    ensures
        out.to_multiset() == listed.to_multiset(),
        forall|i: int, j: int|
            #![trigger out[i], out[j]]
            0 <= i < j < out.len() ==> {
                &&& out[i].km <= out[j].km
                &&& out[i].km == out[j].km ==> !text_lt(out[j].from, out[i].from)
                &&& out[i].km == out[j].km && out[i].from == out[j].from ==> !text_lt(
                    out[j].to,
                    out[i].to,
                )
            },
{
    let order = choose|order: Seq<usize>|
        {
            &&& #[trigger] is_relation_order(listed, order)
            &&& out == taken(listed, order)
        };
    lemma_perm_multiset(listed, order);
    assert forall|i: int, j: int|
        #![trigger out[i], out[j]]
        0 <= i < j < out.len() implies {
        &&& out[i].km <= out[j].km
        &&& out[i].km == out[j].km ==> !text_lt(out[j].from, out[i].from)
        &&& out[i].km == out[j].km && out[i].from == out[j].from ==> !text_lt(out[j].to, out[i].to)
    } by {
        let a = out[i];
        let b = out[j];
        assert(a == listed[order[i] as int] && b == listed[order[j] as int]);
        assert(relation_lt(a, b) || !relation_lt(b, a));
        lemma_text_order(a.from, b.from, a.from);
        lemma_text_order(a.to, b.to, a.to);
    }
}

/// Stations come by number, and none is lost or added.
pub proof fn law_stations_come_by_number(
    listed: Seq<(Seq<char>, Seq<char>)>,
    out: Seq<(Seq<char>, Seq<char>)>,
)
    requires
        sorts_stations(listed, out),
    ensures
        out.to_multiset() == listed.to_multiset(),
        forall|i: int, j: int|
            #![trigger out[i], out[j]]
            0 <= i < j < out.len() ==> !text_lt(out[j].0, out[i].0),
{
    let order = choose|order: Seq<usize>|
        {
            &&& #[trigger] is_uic_order(listed, order)
            &&& out == taken(listed, order)
        };
    lemma_perm_multiset(listed, order);
    assert forall|i: int, j: int|
        #![trigger out[i], out[j]]
        0 <= i < j < out.len() implies !text_lt(out[j].0, out[i].0) by {
        let a = out[i];
        let b = out[j];
        assert(a == listed[order[i] as int] && b == listed[order[j] as int]);
        lemma_text_order(a.0, b.0, a.0);
    }
}

// --------------------------------------------------- what the curve says

/// The prices at a distance are those of the relations that are this far: the adult
/// full fare in second or first class, in the relations' order.
pub proof fn law_prices_at_a_distance(relations: Seq<Relation>, k: nat, km: u32)
    requires
        k <= relations.len(),
    ensures
        prices_at(relation_models(relations), k, km, false) == relations.take(k as int).filter_map(
            |r: Relation|
                if r.km == km {
                    r.adult2
                } else {
                    None
                },
        ),
        prices_at(relation_models(relations), k, km, true) == relations.take(k as int).filter_map(
            |r: Relation|
                if r.km == km {
                    r.adult1
                } else {
                    None
                },
        ),
    decreases k,
{
    if k > 0 {
        law_prices_at_a_distance(relations, (k - 1) as nat, km);
        assert(relations.take(k as int).drop_last() =~= relations.take(k - 1));
        assert(prices_at(relation_models(relations), k, km, false) =~= relations.take(
            k as int,
        ).filter_map(
            |r: Relation|
                if r.km == km {
                    r.adult2
                } else {
                    None
                },
        ));
        assert(prices_at(relation_models(relations), k, km, true) =~= relations.take(
            k as int,
        ).filter_map(
            |r: Relation|
                if r.km == km {
                    r.adult1
                } else {
                    None
                },
        ));
    }
}

/// How many of a list's items are of a kind does not depend on their order.
proof fn lemma_kind_count(s: Seq<u64>, kind: spec_fn(u64) -> bool)
    ensures
        s.filter(kind).len() == s.to_multiset().filter(kind).len(),
    decreases s.len(),
{
    broadcast use vstd::seq_lib::group_to_multiset_ensures;
    broadcast use vstd::multiset::group_multiset_axioms;

    reveal(Seq::filter);
    if s.len() == 0 {
        assert(s.to_multiset() =~= Multiset::empty());
        assert(s.to_multiset().filter(kind) =~= Multiset::empty());
    } else {
        let front = s.drop_last();
        lemma_kind_count(front, kind);
        assert(front.push(s.last()) =~= s);
        assert(s.to_multiset() =~= front.to_multiset().insert(s.last()));
        if kind(s.last()) {
            assert(s.to_multiset().filter(kind) =~= front.to_multiset().filter(kind).insert(
                s.last(),
            ));
        } else {
            assert(s.to_multiset().filter(kind) =~= front.to_multiset().filter(kind));
        }
    }
}

/// A list whose items from place `p` on are not of a kind has at most `p` that are.
proof fn lemma_kind_before(s: Seq<u64>, kind: spec_fn(u64) -> bool, p: nat)
    requires
        forall|i: int| p <= i < s.len() ==> !kind(#[trigger] s[i]),
    ensures
        s.filter(kind).len() <= p,
    decreases s.len(),
{
    reveal(Seq::filter);
    if s.len() > 0 {
        let front = s.drop_last();
        if s.len() <= p {
            front.lemma_filter_len(kind);
        } else {
            assert(!kind(s[s.len() - 1]));
            assert forall|i: int| p <= i < front.len() implies !kind(#[trigger] front[i]) by {
                assert(front[i] == s[i]);
            }
            lemma_kind_before(front, kind, p);
        }
    }
}

/// A list whose items up to place `p` are not of a kind has at most those behind it.
proof fn lemma_kind_behind(s: Seq<u64>, kind: spec_fn(u64) -> bool, p: int)
    requires
        0 <= p < s.len(),
        forall|i: int| 0 <= i <= p ==> !kind(#[trigger] s[i]),
    ensures
        s.filter(kind).len() <= s.len() - p - 1,
    decreases s.len(),
{
    reveal(Seq::filter);
    let front = s.drop_last();
    if p == s.len() - 1 {
        assert forall|i: int| 0 <= i < s.len() implies !kind(#[trigger] s[i]) by {}
        lemma_kind_before(s, kind, 0);
    } else {
        assert forall|i: int| 0 <= i <= p implies !kind(#[trigger] front[i]) by {
            assert(front[i] == s[i]);
        }
        lemma_kind_behind(front, kind, p);
    }
}

/// The median splits the prices in half.
proof fn lemma_median_splits(prices: Seq<u64>, m: u64)
    requires
        is_median(prices, m),
    ensures
        prices.contains(m),
        2 * prices.filter(|p: u64| p < m).len() <= prices.len(),
        2 * prices.filter(|p: u64| p > m).len() < prices.len(),
{
    broadcast use vstd::seq_lib::group_to_multiset_ensures;

    let s = choose|s: Seq<u64>| #[trigger]
        never_falls(s) && s.to_multiset() == prices.to_multiset() && 0 <= s.len() / 2 < s.len()
            && m == s[(s.len() / 2) as int];
    let p = (s.len() / 2) as int;
    let less = |p: u64| p < m;
    let more = |p: u64| p > m;
    assert(s.len() == s.to_multiset().len());
    assert(prices.len() == prices.to_multiset().len());
    assert(s.contains(s[p]));
    assert(s.to_multiset().count(m) > 0);
    lemma_kind_count(s, less);
    lemma_kind_count(prices, less);
    lemma_kind_count(s, more);
    lemma_kind_count(prices, more);
    assert forall|i: int| p <= i < s.len() implies !less(#[trigger] s[i]) by {
        assert(s[p] <= s[i]);
    }
    lemma_kind_before(s, less, p as nat);
    assert forall|i: int| 0 <= i <= p implies !more(#[trigger] s[i]) by {
        assert(s[i] <= s[p]);
    }
    lemma_kind_behind(s, more, p);
}

/// A row of the curve sums up the prices at its distance: how many there are, the
/// lowest, the highest, and a median that at most half of them lie below and fewer
/// than half above. It has first-class prices when any relation that far has one.
pub proof fn law_a_row_sums_up_its_prices(
    rels: Seq<RelationModel>,
    curve: Seq<DistanceRow>,
    i: int,
)
    requires
        is_curve(rels, curve),
        0 <= i < curve.len(),
    ensures
        ({
            let row = curve[i];
            let second = prices_at(rels, rels.len(), row.km, false);
            let first = prices_at(rels, rels.len(), row.km, true);
            &&& row.n == second.len()
            &&& row.n > 0
            &&& second.contains(row.min2) && second.contains(row.median2) && second.contains(
                row.max2,
            )
            &&& forall|j: int| 0 <= j < second.len() ==> row.min2 <= #[trigger] second[j] <= row.max2
            &&& 2 * second.filter(|p: u64| p < row.median2).len() <= second.len()
            &&& 2 * second.filter(|p: u64| p > row.median2).len() < second.len()
            &&& first.len() == 0 ==> row.min1 is None && row.median1 is None && row.max1 is None
            &&& first.len() > 0 ==> {
                &&& row.min1 is Some && row.median1 is Some && row.max1 is Some
                &&& first.contains(row.min1->0) && first.contains(row.median1->0)
                    && first.contains(row.max1->0)
                &&& forall|j: int|
                    0 <= j < first.len() ==> row.min1->0 <= #[trigger] first[j] <= row.max1->0
                &&& 2 * first.filter(|p: u64| p < row.median1->0).len() <= first.len()
                &&& 2 * first.filter(|p: u64| p > row.median1->0).len() < first.len()
            }
        }),
{
    let row = curve[i];
    let second = prices_at(rels, rels.len(), row.km, false);
    let first = prices_at(rels, rels.len(), row.km, true);
    assert(is_row(row, second, first));
    lemma_median_splits(second, row.median2);
    if first.len() > 0 {
        lemma_median_splits(first, row.median1->0);
    }
}

/// The curve has a row for exactly those distances above nothing at which some
/// relation has an adult second-class price, and the rows come by distance.
pub proof fn law_the_curve_covers_every_priced_distance(
    relations: Seq<Relation>,
    curve: Seq<DistanceRow>,
    km: u32,
)
    requires
        is_curve(relation_models(relations), curve),
    ensures
        forall|i: int, j: int|
            #![trigger curve[i], curve[j]]
            0 <= i < j < curve.len() ==> curve[i].km < curve[j].km,
        (exists|i: int| 0 <= i < curve.len() && (#[trigger] curve[i]).km == km) <==> km > 0
            && exists|j: int|
            0 <= j < relations.len() && (#[trigger] relations[j]).km == km
                && relations[j].adult2 is Some,
{
    let rels = relation_models(relations);
    lemma_priced_somewhere(relations, relations.len(), km);
    assert(has_row(rels, km) <==> km > 0 && exists|j: int|
        0 <= j < relations.len() && (#[trigger] relations[j]).km == km && relations[j].adult2 is Some);
    if exists|i: int| 0 <= i < curve.len() && (#[trigger] curve[i]).km == km {
        let i = choose|i: int| 0 <= i < curve.len() && (#[trigger] curve[i]).km == km;
        assert(has_row(rels, curve[i].km));
    }
}

proof fn lemma_priced_somewhere(relations: Seq<Relation>, k: nat, km: u32)
    requires
        k <= relations.len(),
    ensures
        prices_at(relation_models(relations), k, km, false).len() > 0 <==> exists|j: int|
            0 <= j < k && (#[trigger] relations[j]).km == km && relations[j].adult2 is Some,
    decreases k,
{
    if k > 0 {
        lemma_priced_somewhere(relations, (k - 1) as nat, km);
        assert(relation_models(relations)[k - 1] == relations[k - 1]@);
        if prices_at(relation_models(relations), (k - 1) as nat, km, false).len() > 0 {
            let j = choose|j: int|
                0 <= j < k - 1 && (#[trigger] relations[j]).km == km && relations[j].adult2 is Some;
            assert(relations[j].km == km);
        }
    }
}

/// How the spread adds up row by row: every relation counts, those at a distance with
/// two prices are ambiguous, the worst spread is the largest difference, and each such
/// distance gives its difference as a share of its median.
pub proof fn law_spread_adds_up(curve: Seq<DistanceRow>, k: nat)
    requires
        k < curve.len(),
    ensures
        relation_count(curve, 0, false) == 0,
        relation_count(curve, 0, true) == 0,
        relation_count(curve, k + 1, false) == relation_count(curve, k, false) + curve[k as int].n,
        relation_count(curve, k + 1, true) == relation_count(curve, k, true) + (if curve[k as int].min2
            < curve[k as int].max2 {
            curve[k as int].n as int
        } else {
            0
        }),
{
}

/// The worst spread is that of some row, and no row has a larger one.
pub proof fn law_worst_spread_is_the_largest(curve: Seq<DistanceRow>, k: nat)
    requires
        k <= curve.len(),
    ensures
        forall|i: int|
            0 <= i < k ==> (#[trigger] curve[i]).max2 - curve[i].min2 <= worst_spread(curve, k),
        worst_spread(curve, k) > 0 ==> exists|i: int|
            0 <= i < k && (#[trigger] curve[i]).max2 - curve[i].min2 == worst_spread(curve, k),
    decreases k,
{
    if k > 0 {
        law_worst_spread_is_the_largest(curve, (k - 1) as nat);
        let row = curve[k - 1];
        let rest = worst_spread(curve, (k - 1) as nat);
        if worst_spread(curve, k) > 0 {
            if worst_spread(curve, k) == rest && !(row.max2 - row.min2 > rest) {
                let i = choose|i: int|
                    0 <= i < k - 1 && (#[trigger] curve[i]).max2 - curve[i].min2 == rest;
                assert(curve[i].max2 - curve[i].min2 == worst_spread(curve, k));
            } else {
                assert(curve[k - 1].max2 - curve[k - 1].min2 == worst_spread(curve, k));
            }
        }
    }
}

/// Each distance with more than one price has its difference as a share of its median
/// price.
pub proof fn law_shares_are_of_the_median(curve: Seq<DistanceRow>, k: nat)
    requires
        k <= curve.len(),
    ensures
        row_shares(curve, k) == curve.take(k as int).filter_map(
            |row: DistanceRow|
                if row.min2 < row.max2 {
                    Some(Ratio { num: (row.max2 - row.min2) as u64, den: row.median2 })
                } else {
                    None
                },
        ),
    decreases k,
{
    if k > 0 {
        law_shares_are_of_the_median(curve, (k - 1) as nat);
        assert(curve.take(k as int).drop_last() =~= curve.take(k - 1));
        assert(row_shares(curve, k) =~= curve.take(k as int).filter_map(
            |row: DistanceRow|
                if row.min2 < row.max2 {
                    Some(Ratio { num: (row.max2 - row.min2) as u64, den: row.median2 })
                } else {
                    None
                },
        ));
    }
}

/// Shares are compared as fractions, one of nothing being larger than any other.
pub proof fn law_shares_compare_as_fractions(a: Ratio, b: Ratio)
    ensures
        a.den > 0 && b.den > 0 ==> (a.ranks_before(&b) <==> a.num * b.den < b.num * a.den),
        a.den > 0 && b.den == 0 ==> a.ranks_before(&b),
        a.den == 0 ==> !a.ranks_before(&b),
{
}

} // verus!
