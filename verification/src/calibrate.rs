//! Tariff-kilometre calibration and the hybrid price model: which published fare
//! holds between two stations, which route it is for, and what serves to measure
//! the model.
//!
//! Two tiers: a published price wherever one exists for the pair, served exactly
//! as published, and otherwise an estimate from fitted tariff kilometres.

use crate::curve::{is_monotone_fit, mean_le, Mean};
use crate::osdm::{relation_models, DistanceRow, Relation, RelationModel};
use crate::rail::NatStation;
use crate::routes::{
    all_positive, connected, edges_weight, is_chosen_route, law_sub_routes_agree, route_edges,
    route_node, steps_exist, Adjacency, EdgeGraph,
};
use crate::sorting::{is_order, lemma_order_complete, sort_order, taken, Ranked};
use crate::stations::{code_edge, edge_between, edge_code, StopIndex};
use std::collections::HashMap;
use vstd::prelude::*;
use vstd::string::*;

verus! {

broadcast use vstd::std_specs::hash::group_hash_axioms;

// --------------------------------------------------------- station numbers

/// The station of each UIC number among the first `k`, the first one where
/// several share it. A station without a number has none.
pub open spec fn uic_map<C>(stations: Seq<NatStation<C>>, k: nat) -> Map<Seq<char>, usize>
    decreases k,
{
    if k == 0 {
        Map::empty()
    } else {
        let rest = uic_map(stations, (k - 1) as nat);
        let uic = stations[k - 1].uic@;
        if uic.len() > 0 && !rest.dom().contains(uic) {
            rest.insert(uic, (k - 1) as usize)
        } else {
            rest
        }
    }
}

/// Finds the station of each UIC number.
pub fn index_by_uic<C>(stations: &Vec<NatStation<C>>) -> (r: StopIndex)
    ensures
        r@ == uic_map(stations@, stations@.len()),
        forall|uic: Seq<char>| #[trigger] r@.dom().contains(uic) ==> r@[uic] < stations@.len(),
{
    let mut index = StopIndex::new();
    let mut i: usize = 0;
    while i < stations.len()
        invariant
            i <= stations@.len(),
            index@ == uic_map(stations@, i as nat),
            forall|uic: Seq<char>| #[trigger] index@.dom().contains(uic) ==> index@[uic] < i,
        decreases stations@.len() - i,
    {
        let uic = &stations[i].uic;
        if uic.as_str().unicode_len() > 0 && index.get(uic.as_str()).is_none() {
            index.insert(uic.clone(), i);
        }
        i = i + 1;
    }
    index
}

// ----------------------------------------------------------- cheapest fares

/// The pair of stations a relation joins, the smaller index first; nothing where
/// a station is unknown or both are the same.
pub open spec fn pair_of(r: RelationModel, uic: Map<Seq<char>, usize>) -> Option<(u32, u32)> {
    if uic.dom().contains(r.from) && uic.dom().contains(r.to) && uic[r.from] != uic[r.to] {
        Some(edge_between(uic[r.from] as u32, uic[r.to] as u32))
    } else {
        None
    }
}

/// Whether relation `i` prices a pair of stations.
pub open spec fn prices_pair(
    rels: Seq<RelationModel>,
    uic: Map<Seq<char>, usize>,
    pair: (u32, u32),
    i: int,
) -> bool {
    &&& 0 <= i < rels.len()
    &&& rels[i].columns.adult2 is Some
    &&& pair_of(rels[i], uic) == Some(pair)
}

/// Whether relation `i` is the cheapest that prices a pair among the first `k`,
/// the first one among equals: the ticket a passenger would actually buy.
pub open spec fn is_cheapest(
    rels: Seq<RelationModel>,
    uic: Map<Seq<char>, usize>,
    pair: (u32, u32),
    k: int,
    i: int,
) -> bool {
    &&& i < k
    &&& prices_pair(rels, uic, pair, i)
    &&& forall|j: int| #[trigger]
        prices_pair(rels, uic, pair, j) && j < k ==> rels[i].columns.adult2->0
            <= rels[j].columns.adult2->0
    &&& forall|j: int| #[trigger]
        prices_pair(rels, uic, pair, j) && j < i ==> rels[i].columns.adult2->0
            < rels[j].columns.adult2->0
}

/// The published fare of one pair of stations.
#[derive(Debug, Clone, Copy, PartialEq, Eq, Structural)]
pub struct PairFare {
    pub a: u32,
    pub b: u32,
    /// Which relation it is.
    pub relation: usize,
}

impl Ranked for PairFare {
    open spec fn ranks_before(&self, other: &PairFare) -> bool {
        self.a < other.a || (self.a == other.a && self.b < other.b)
    }

    proof fn lemma_ranking(a: &PairFare, b: &PairFare, c: &PairFare) {
    }

    fn is_before(&self, other: &PairFare) -> bool {
        self.a < other.a || (self.a == other.a && self.b < other.b)
    }
}

/// Whether the pairs of a list are distinct.
spec fn fares_distinct(s: Seq<PairFare>) -> bool {
    forall|i: int, j: int|
        #![trigger s[i], s[j]]
        0 <= i < j < s.len() ==> s[i].a != s[j].a || s[i].b != s[j].b
}

/// Whether a list holds the cheapest of the first `k` relations for every pair
/// that any of them prices.
pub open spec fn lists_cheapest(
    rels: Seq<RelationModel>,
    uic: Map<Seq<char>, usize>,
    k: int,
    s: Seq<PairFare>,
) -> bool {
    &&& forall|x: int|
        0 <= x < s.len() ==> is_cheapest(
            rels,
            uic,
            ((#[trigger] s[x]).a, s[x].b),
            k,
            s[x].relation as int,
        )
    &&& forall|i: int, pair: (u32, u32)| #[trigger]
        prices_pair(rels, uic, pair, i) && i < k ==> has_pair(s, pair)
}

/// Whether a list has an entry for a pair.
pub open spec fn has_pair(s: Seq<PairFare>, pair: (u32, u32)) -> bool {
    exists|x: int| 0 <= x < s.len() && (#[trigger] s[x]).a == pair.0 && s[x].b == pair.1
}

/// Whether pairs come in increasing order, none twice.
pub open spec fn fares_increase(s: Seq<PairFare>) -> bool {
    forall|i: int, j: int|
        #![trigger s[i], s[j]]
        0 <= i < j < s.len() ==> s[i].a < s[j].a || (s[i].a == s[j].a && s[i].b < s[j].b)
}

/// Whether the places found for pair codes are those of a list.
spec fn places_ok(places: Map<u64, usize>, s: Seq<PairFare>) -> bool {
    &&& forall|code: u64| #[trigger]
        places.dom().contains(code) ==> places[code] < s.len() && (
        s[places[code] as int].a,
        s[places[code] as int].b,
        ) == code_edge(code)
    &&& forall|x: int|
        0 <= x < s.len() ==> places.dom().contains(edge_code(((#[trigger] s[x]).a, s[x].b)))
}

proof fn lemma_cheapest_other(
    rels: Seq<RelationModel>,
    uic: Map<Seq<char>, usize>,
    pair: (u32, u32),
    k: int,
    i: int,
)
    requires
        is_cheapest(rels, uic, pair, k, i),
        !prices_pair(rels, uic, pair, k),
    ensures
        is_cheapest(rels, uic, pair, k + 1, i),
{
}

/// The cheapest published relation per unordered pair of stations, by pair.
#[verifier::rlimit(30)]
pub fn cheapest_fares(relations: &Vec<Relation>, uic: &StopIndex) -> (r: Vec<PairFare>)
    requires
        forall|id: Seq<char>| #[trigger] uic@.dom().contains(id) ==> uic@[id] <= u32::MAX,
    ensures
        fares_increase(r@),
        lists_cheapest(relation_models(relations@), uic@, relations@.len() as int, r@),
{
    let ghost rels = relation_models(relations@);
    let mut places: HashMap<u64, usize> = HashMap::new();
    let mut best: Vec<PairFare> = Vec::new();
    let mut i: usize = 0;
    while i < relations.len()
        invariant
            rels == relation_models(relations@),
            forall|id: Seq<char>| #[trigger] uic@.dom().contains(id) ==> uic@[id] <= u32::MAX,
            i <= relations@.len(),
            fares_distinct(best@),
            places_ok(places@, best@),
            lists_cheapest(rels, uic@, i as int, best@),
        decreases relations@.len() - i,
    {
        let r = &relations[i];
        assert(rels[i as int] == r@);
        let ghost old_best = best@;
        let ghost old_places = places@;
        let mut noted = false;
        if let (Some(x), Some(y), Some(p)) = (
            uic.get(r.from.as_str()),
            uic.get(r.to.as_str()),
            r.adult2,
        ) {
            if x != y {
                let (a, b) = if (x as u32) < (y as u32) {
                    (x as u32, y as u32)
                } else {
                    (y as u32, x as u32)
                };
                let code: u64 = a as u64 * 0x1_0000_0000 + b as u64;
                proof {
                    assert(code == edge_code((a, b)));
                    assert(code_edge(code) == (a, b));
                    assert(prices_pair(rels, uic@, (a, b), i as int));
                }
                noted = true;
                match places.get(&code) {
                    Some(at) => {
                        let place: usize = *at;
                        let known: usize = best[place].relation;
                        proof {
                            assert(is_cheapest(
                                rels,
                                uic@,
                                (best@[place as int].a, best@[place as int].b),
                                i as int,
                                known as int,
                            ));
                            assert(rels[known as int] == relations@[known as int]@);
                        }
                        let cheaper = match relations[known].adult2 {
                            Some(q) => p < q,
                            None => true,
                        };
                        if cheaper {
                            best.set(place, PairFare { a, b, relation: i });
                        }
                        proof {
                            lemma_noted(
                                rels,
                                uic@,
                                i as int,
                                old_best,
                                best@,
                                place as int,
                                (a, b),
                            );
                            assert(places_ok(places@, best@)) by {
                                assert forall|z: int| 0 <= z < best@.len() implies places@.dom().contains(
                                    edge_code(((#[trigger] best@[z]).a, best@[z].b)),
                                ) by {
                                    assert(old_places.dom().contains(
                                        edge_code((old_best[z].a, old_best[z].b)),
                                    ));
                                }
                            }
                        }
                    },
                    None => {
                        places.insert(code, best.len());
                        best.push(PairFare { a, b, relation: i });
                        proof {
                            lemma_first_fare(rels, uic@, i as int, old_best, best@, (a, b), old_places);
                            assert(places_ok(places@, best@)) by {
                                assert forall|z: int| 0 <= z < best@.len() implies places@.dom().contains(
                                    edge_code(((#[trigger] best@[z]).a, best@[z].b)),
                                ) by {
                                    if z < old_best.len() {
                                        assert(old_places.dom().contains(
                                            edge_code((old_best[z].a, old_best[z].b)),
                                        ));
                                    }
                                }
                            }
                        }
                    },
                }
            }
        }
        proof {
            if !noted {
                assert forall|pair: (u32, u32)| !prices_pair(rels, uic@, pair, i as int) by {}
                assert forall|x: int| 0 <= x < best@.len() implies is_cheapest(
                    rels,
                    uic@,
                    ((#[trigger] best@[x]).a, best@[x].b),
                    i + 1,
                    best@[x].relation as int,
                ) by {
                    lemma_cheapest_other(
                        rels,
                        uic@,
                        (best@[x].a, best@[x].b),
                        i as int,
                        best@[x].relation as int,
                    );
                }
            }
        }
        i = i + 1;
    }
    let order = sort_order(&best);
    let mut out: Vec<PairFare> = Vec::new();
    let mut k: usize = 0;
    while k < order.len()
        invariant
            k <= order@.len(),
            is_order(best@, order@),
            out@ == taken(best@, order@).take(k as int),
        decreases order@.len() - k,
    {
        out.push(best[order[k]]);
        assert(out@ =~= taken(best@, order@).take(k + 1));
        k = k + 1;
    }
    proof {
        assert(out@ =~= taken(best@, order@));
        lemma_sorted_fares(best@, order@, out@);
        let n = relations@.len() as int;
        assert forall|x: int| 0 <= x < out@.len() implies is_cheapest(
            rels,
            uic@,
            ((#[trigger] out@[x]).a, out@[x].b),
            n,
            out@[x].relation as int,
        ) by {
            assert(out@[x] == best@[order@[x] as int]);
        }
        assert forall|j: int, pair: (u32, u32)| #[trigger]
            prices_pair(rels, uic@, pair, j) && j < n implies has_pair(out@, pair) by {
            assert(has_pair(best@, pair));
            let z = choose|z: int|
                0 <= z < best@.len() && (#[trigger] best@[z]).a == pair.0 && best@[z].b == pair.1;
            lemma_order_complete(best@, order@, z);
            let x = choose|x: int| 0 <= x < order@.len() && #[trigger] order@[x] == z;
            assert(out@[x] == best@[z]);
        }
    }
    out
}

/// One more relation for a pair that has a fare already.
proof fn lemma_noted(
    rels: Seq<RelationModel>,
    uic: Map<Seq<char>, usize>,
    i: int,
    before: Seq<PairFare>,
    after: Seq<PairFare>,
    place: int,
    pair: (u32, u32),
)
    requires
        fares_distinct(before),
        lists_cheapest(rels, uic, i, before),
        0 <= place < before.len(),
        (before[place].a, before[place].b) == pair,
        prices_pair(rels, uic, pair, i),
        i <= usize::MAX,
        after == if rels[i].columns.adult2->0
            < rels[before[place].relation as int].columns.adult2->0 {
            before.update(place, PairFare { a: pair.0, b: pair.1, relation: i as usize })
        } else {
            before
        },
    ensures
        fares_distinct(after),
        lists_cheapest(rels, uic, i + 1, after),
        after.len() == before.len(),
        forall|z: int|
            0 <= z < after.len() ==> (#[trigger] after[z]).a == before[z].a && after[z].b
                == before[z].b,
{
    assert forall|z: int| 0 <= z < after.len() implies is_cheapest(
        rels,
        uic,
        ((#[trigger] after[z]).a, after[z].b),
        i + 1,
        after[z].relation as int,
    ) by {
        let at = (before[z].a, before[z].b);
        assert(is_cheapest(rels, uic, at, i, before[z].relation as int));
        if z == place {
            let known = before[place].relation as int;
            assert forall|j: int| #[trigger] prices_pair(rels, uic, pair, j) && j < i + 1 implies
                rels[after[z].relation as int].columns.adult2->0 <= rels[j].columns.adult2->0 by {
                if j < i {
                    assert(rels[known].columns.adult2->0 <= rels[j].columns.adult2->0);
                }
            }
        } else {
            if z < place {
                assert(before[z].a != before[place].a || before[z].b != before[place].b);
            } else {
                assert(before[place].a != before[z].a || before[place].b != before[z].b);
            }
            lemma_cheapest_other(rels, uic, at, i, before[z].relation as int);
        }
    }
    assert forall|j: int, other: (u32, u32)| #[trigger]
        prices_pair(rels, uic, other, j) && j < i + 1 implies has_pair(after, other) by {
        if j < i {
            assert(has_pair(before, other));
            let x = choose|x: int|
                0 <= x < before.len() && (#[trigger] before[x]).a == other.0 && before[x].b
                    == other.1;
            assert(after[x].a == other.0 && after[x].b == other.1);
        } else {
            assert(after[place].a == pair.0 && after[place].b == pair.1);
        }
    }
    assert forall|x: int, y: int|
        #![trigger after[x], after[y]]
        0 <= x < y < after.len() implies after[x].a != after[y].a || after[x].b != after[y].b by {
        assert(before[x].a != before[y].a || before[x].b != before[y].b);
    }
}

/// The first relation for a pair.
proof fn lemma_first_fare(
    rels: Seq<RelationModel>,
    uic: Map<Seq<char>, usize>,
    i: int,
    before: Seq<PairFare>,
    after: Seq<PairFare>,
    pair: (u32, u32),
    places: Map<u64, usize>,
)
    requires
        fares_distinct(before),
        places_ok(places, before),
        !places.dom().contains(edge_code(pair)),
        lists_cheapest(rels, uic, i, before),
        prices_pair(rels, uic, pair, i),
        i <= usize::MAX,
        after == before.push(PairFare { a: pair.0, b: pair.1, relation: i as usize }),
    ensures
        fares_distinct(after),
        lists_cheapest(rels, uic, i + 1, after),
{
    assert forall|z: int| 0 <= z < before.len() implies ((#[trigger] before[z]).a, before[z].b)
        != pair by {
        assert(places.dom().contains(edge_code((before[z].a, before[z].b))));
    }
    assert forall|j: int| #[trigger] prices_pair(rels, uic, pair, j) && j < i implies false by {
        assert(has_pair(before, pair));
        let x = choose|x: int|
            0 <= x < before.len() && (#[trigger] before[x]).a == pair.0 && before[x].b == pair.1;
        assert(before[x].a == pair.0);
    }
    assert forall|z: int| 0 <= z < after.len() implies is_cheapest(
        rels,
        uic,
        ((#[trigger] after[z]).a, after[z].b),
        i + 1,
        after[z].relation as int,
    ) by {
        if z < before.len() {
            assert(after[z] == before[z]);
            lemma_cheapest_other(
                rels,
                uic,
                (before[z].a, before[z].b),
                i,
                before[z].relation as int,
            );
        }
    }
    assert forall|j: int, other: (u32, u32)| #[trigger]
        prices_pair(rels, uic, other, j) && j < i + 1 implies has_pair(after, other) by {
        if j < i {
            assert(has_pair(before, other));
            let x = choose|x: int|
                0 <= x < before.len() && (#[trigger] before[x]).a == other.0 && before[x].b
                    == other.1;
            assert(after[x].a == other.0 && after[x].b == other.1);
        } else {
            assert(after[before.len() as int].a == pair.0);
        }
    }
    assert forall|x: int, y: int|
        #![trigger after[x], after[y]]
        0 <= x < y < after.len() implies after[x].a != after[y].a || after[x].b != after[y].b by {
        if y < before.len() {
            assert(before[x].a != before[y].a || before[x].b != before[y].b);
        } else {
            assert((before[x].a, before[x].b) != pair);
        }
    }
}

proof fn lemma_sorted_fares(best: Seq<PairFare>, order: Seq<usize>, out: Seq<PairFare>)
    requires
        fares_distinct(best),
        is_order(best, order),
        out == taken(best, order),
    ensures
        fares_increase(out),
{
    assert forall|i: int, j: int|
        #![trigger out[i], out[j]]
        0 <= i < j < out.len() implies out[i].a < out[j].a || (out[i].a == out[j].a && out[i].b
        < out[j].b) by {
        assert(crate::sorting::placed_before(best, order[i] as int, order[j] as int));
        assert(order[i] != order[j]);
        let x = order[i] as int;
        let y = order[j] as int;
        if x < y {
            assert(best[x].a != best[y].a || best[x].b != best[y].b);
        } else {
            assert(best[y].a != best[x].a || best[y].b != best[x].b);
        }
    }
}

// ---------------------------------------------------------------- samples

/// One training example: the edge path of a real relation and its published
/// tariff kilometres and price.
#[derive(Debug)]
pub struct Sample {
    pub path: Vec<u32>,
    pub km: u32,
    pub price: u64,
}

/// Those of the first `k` fares between whose stations there is a route.
pub open spec fn routed(adj: Adjacency, fares: Seq<PairFare>, k: nat) -> Seq<PairFare>
    decreases k,
{
    if k == 0 {
        Seq::empty()
    } else {
        let rest = routed(adj, fares, (k - 1) as nat);
        if connected(adj, fares[k - 1].a as int, fares[k - 1].b as int) {
            rest.push(fares[k - 1])
        } else {
            rest
        }
    }
}

/// Whether a sample is that of a fare: its route by travel time, its published
/// kilometres and price.
pub open spec fn is_sample(
    adj: Adjacency,
    w: Seq<u64>,
    rels: Seq<RelationModel>,
    fare: PairFare,
    sample: Sample,
) -> bool {
    &&& sample.km == rels[fare.relation as int].km
    &&& Some(sample.price) == rels[fare.relation as int].columns.adult2
    &&& exists|route: Seq<(int, int)>|
        #[trigger] is_chosen_route(adj, w, fare.a as int, fare.b as int, route) && sample.path@
            == route_edges(adj, route)
}

/// Routes each fare by *travel time*, not distance: the fare should follow the
/// train a traveller would actually take. A pair without a route gives no sample.
pub fn route_samples<M, S>(
    graph: &EdgeGraph<M, S>,
    w: &[u64],
    relations: &Vec<Relation>,
    fares: &Vec<PairFare>,
) -> (r: Vec<Sample>)
    requires
        graph.adj@.len() <= u32::MAX,
        steps_exist(graph.steps(), w@.len()),
        all_positive(w@),
        forall|i: int|
            0 <= i < fares@.len() ==> {
                &&& (#[trigger] fares@[i]).a < graph.adj@.len()
                &&& fares@[i].b < graph.adj@.len()
                &&& fares@[i].a != fares@[i].b
                &&& fares@[i].relation < relations@.len()
                &&& relations@[fares@[i].relation as int].adult2 is Some
            },
    ensures
        r@.len() == routed(graph.steps(), fares@, fares@.len()).len(),
        forall|i: int|
            0 <= i < r@.len() ==> is_sample(
                graph.steps(),
                w@,
                relation_models(relations@),
                routed(graph.steps(), fares@, fares@.len())[i],
                #[trigger] r@[i],
            ),
{
    let ghost adj = graph.steps();
    let ghost rels = relation_models(relations@);
    let mut out: Vec<Sample> = Vec::new();
    let mut i: usize = 0;
    while i < fares.len()
        invariant
            adj == graph.steps(),
            rels == relation_models(relations@),
            graph.adj@.len() <= u32::MAX,
            steps_exist(adj, w@.len()),
            all_positive(w@),
            forall|k: int|
                0 <= k < fares@.len() ==> {
                    &&& (#[trigger] fares@[k]).a < graph.adj@.len()
                    &&& fares@[k].b < graph.adj@.len()
                    &&& fares@[k].a != fares@[k].b
                    &&& fares@[k].relation < relations@.len()
                    &&& relations@[fares@[k].relation as int].adult2 is Some
                },
            i <= fares@.len(),
            out@.len() == routed(adj, fares@, i as nat).len(),
            forall|k: int|
                0 <= k < out@.len() ==> is_sample(
                    adj,
                    w@,
                    rels,
                    routed(adj, fares@, i as nat)[k],
                    #[trigger] out@[k],
                ),
        decreases fares@.len() - i,
    {
        let fare = fares[i];
        let ghost before = out@;
        let ghost sofar = routed(adj, fares@, i as nat);
        if let Some(path) = graph.path(w, fare.a, fare.b) {
            let relation = &relations[fare.relation];
            assert(rels[fare.relation as int] == relation@);
            if let Some(price) = relation.adult2 {
                proof {
                    let route = choose|route: Seq<(int, int)>|
                        #[trigger] is_chosen_route(
                            adj,
                            w@,
                            fare.a as int,
                            fare.b as int,
                            route,
                        ) && path@ == route_edges(adj, route);
                    lemma_route_connects(adj, w@, fare.a as int, fare.b as int, route);
                }
                let sample = Sample { path, km: relation.km, price };
                assert(is_sample(adj, w@, rels, fare, sample));
                out.push(sample);
                proof {
                    let now = routed(adj, fares@, (i + 1) as nat);
                    assert(now == sofar.push(fare));
                    assert forall|k: int| 0 <= k < out@.len() implies is_sample(
                        adj,
                        w@,
                        rels,
                        now[k],
                        #[trigger] out@[k],
                    ) by {
                        if k < before.len() {
                            assert(now[k] == sofar[k]);
                            assert(out@[k] == before[k]);
                        }
                    }
                }
            }
        }
        i = i + 1;
    }
    out
}

proof fn lemma_route_connects(
    adj: Adjacency,
    w: Seq<u64>,
    src: int,
    dst: int,
    route: Seq<(int, int)>,
)
    requires
        is_chosen_route(adj, w, src, dst, route),
    ensures
        connected(adj, src, dst),
{
    crate::routes::law_chosen_route_is_lightest(adj, w, src, dst, route);
    let d = crate::routes::distance(adj, w, src, dst);
    let walk = choose|walk: Seq<int>| crate::routes::walks_to(adj, w, src, dst, d, walk);
    assert(crate::routes::is_walk(adj, src, walk));
}

/// One in how many samples is held out.
pub const HOLD_OUT: usize = 5;

/// Those of the first `k` samples that are held out, or those that are not.
pub open spec fn part_of(samples: Seq<Sample>, k: nat, held_out: bool) -> Seq<Sample>
    decreases k,
{
    if k == 0 {
        Seq::empty()
    } else {
        let rest = part_of(samples, (k - 1) as nat, held_out);
        if held_out == ((k - 1) % 5 == 0) {
            rest.push(samples[k - 1])
        } else {
            rest
        }
    }
}

/// Splits samples into those to train on and those held out, so that the reported
/// error is out of sample: every fifth one, the first included, is held out.
pub fn split_samples(samples: Vec<Sample>) -> (r: (Vec<Sample>, Vec<Sample>))
    ensures
        r.0@ == part_of(samples@, samples@.len(), false),
        r.1@ == part_of(samples@, samples@.len(), true),
{
    let ghost all = samples@;
    let n: usize = samples.len();
    let mut rest = samples;
    let mut back: Vec<Sample> = Vec::new();
    while rest.len() > 0
        invariant
            rest@.len() + back@.len() == all.len(),
            rest@ == all.take(rest@.len() as int),
            forall|i: int|
                0 <= i < back@.len() ==> #[trigger] back@[i] == all[all.len() - 1 - i],
        decreases rest@.len(),
    {
        if let Some(sample) = rest.pop() {
            back.push(sample);
        }
    }
    let mut train: Vec<Sample> = Vec::new();
    let mut test: Vec<Sample> = Vec::new();
    let mut i: usize = 0;
    while back.len() > 0
        invariant
            n == all.len(),
            i + back@.len() == n,
            forall|j: int|
                0 <= j < back@.len() ==> #[trigger] back@[j] == all[all.len() - 1 - j],
            train@ == part_of(all, i as nat, false),
            test@ == part_of(all, i as nat, true),
        decreases back@.len(),
    {
        if let Some(sample) = back.pop() {
            assert(sample == all[i as int]);
            if i % HOLD_OUT == 0 {
                test.push(sample);
            } else {
                train.push(sample);
            }
            i = i + 1;
        }
    }
    (train, test)
}

/// No sample is lost and none is both trained on and held out.
pub proof fn law_split_loses_nothing(samples: Seq<Sample>, k: nat)
    requires
        k <= samples.len(),
    ensures
        part_of(samples, k, false).to_multiset().add(part_of(samples, k, true).to_multiset())
            == samples.take(k as int).to_multiset(),
        part_of(samples, k, true).len() == (k + 4) / 5,
    decreases k,
{
    broadcast use vstd::seq_lib::group_to_multiset_ensures;

    if k > 0 {
        law_split_loses_nothing(samples, (k - 1) as nat);
        let part = samples.take(k - 1);
        assert(samples.take(k as int) =~= part.push(samples[k - 1]));
        let train = part_of(samples, (k - 1) as nat, false);
        let test = part_of(samples, (k - 1) as nat, true);
        let new = samples[k - 1];
        assert(part.push(new).to_multiset() =~= part.to_multiset().insert(new));
        if (k - 1) % 5 == 0 {
            assert(test.push(new).to_multiset() =~= test.to_multiset().insert(new));
        } else {
            assert(train.push(new).to_multiset() =~= train.to_multiset().insert(new));
        }
        assert(part_of(samples, k, false).to_multiset().add(
            part_of(samples, k, true).to_multiset(),
        ) =~= part.to_multiset().insert(new));
    } else {
        assert(samples.take(0) =~= Seq::empty());
        assert(Seq::<Sample>::empty().to_multiset().add(Seq::<Sample>::empty().to_multiset())
            =~= Seq::<Sample>::empty().to_multiset());
    }
}

/// Whether the first `k` edges of a route hold an edge.
pub open spec fn route_takes(path: Seq<u32>, k: int, edge: int) -> bool {
    exists|j: int| 0 <= j < k && #[trigger] path[j] == edge
}

/// Whether the route of one of the first `k` samples takes an edge.
pub open spec fn on_some_path(samples: Seq<Sample>, k: int, edge: int) -> bool {
    exists|i: int|
        0 <= i < k && #[trigger] route_takes(samples[i].path@, samples[i].path@.len() as int, edge)
}

/// How many of the first `k` edges some sample's route takes.
pub open spec fn covered_count(samples: Seq<Sample>, k: nat) -> nat
    decreases k,
{
    if k == 0 {
        0
    } else {
        covered_count(samples, (k - 1) as nat) + if on_some_path(
            samples,
            samples.len() as int,
            k - 1,
        ) {
            1nat
        } else {
            0
        }
    }
}

/// Whether every edge of every route is one of the first `edges`.
pub open spec fn paths_exist(samples: Seq<Sample>, edges: int) -> bool {
    forall|i: int, j: int|
        #![trigger samples[i].path@[j]]
        0 <= i < samples.len() && 0 <= j < samples[i].path@.len() ==> samples[i].path@[j] < edges
}

/// Counts the edges that some sample's route takes.
pub fn covered_edges(samples: &Vec<Sample>, edges: usize) -> (r: usize)
    requires
        paths_exist(samples@, edges as int),
    ensures
        r == covered_count(samples@, edges as nat),
{
    let mut seen: Vec<bool> = Vec::new();
    while seen.len() < edges
        invariant
            seen@.len() <= edges,
            forall|e: int| 0 <= e < seen@.len() ==> !#[trigger] seen@[e],
        decreases edges - seen@.len(),
    {
        seen.push(false);
    }
    let mut i: usize = 0;
    while i < samples.len()
        invariant
            seen@.len() == edges,
            i <= samples@.len(),
            paths_exist(samples@, edges as int),
            forall|e: int|
                0 <= e < edges ==> (#[trigger] seen@[e] <==> on_some_path(samples@, i as int, e)),
        decreases samples@.len() - i,
    {
        let ghost before = seen@;
        let path = &samples[i].path;
        let mut j: usize = 0;
        while j < path.len()
            invariant
                seen@.len() == edges,
                before.len() == edges,
                i < samples@.len(),
                path@ == samples@[i as int].path@,
                j <= path@.len(),
                paths_exist(samples@, edges as int),
                forall|e: int|
                    0 <= e < edges ==> (#[trigger] seen@[e] <==> before[e] || route_takes(
                        path@,
                        j as int,
                        e,
                    )),
            decreases path@.len() - j,
        {
            let taken_edge: u32 = path[j];
            assert(samples@[i as int].path@[j as int] == taken_edge);
            let ghost was = seen@;
            seen.set(taken_edge as usize, true);
            proof {
                assert forall|e: int| 0 <= e < edges implies (#[trigger] seen@[e] <==> before[e]
                    || route_takes(path@, j + 1, e)) by {
                    assert(was[e] <==> before[e] || route_takes(path@, j as int, e));
                    if e == taken_edge {
                        assert(path@[j as int] == e);
                    }
                }
            }
            j = j + 1;
        }
        proof {
            assert forall|e: int| 0 <= e < edges implies (#[trigger] seen@[e] <==> on_some_path(
                samples@,
                i + 1,
                e,
            )) by {
                assert(before[e] <==> on_some_path(samples@, i as int, e));
                assert(seen@[e] <==> before[e] || route_takes(path@, path@.len() as int, e));
            }
        }
        i = i + 1;
    }
    let mut covered: usize = 0;
    let mut e: usize = 0;
    while e < edges
        invariant
            seen@.len() == edges,
            e <= edges,
            covered <= e,
            covered == covered_count(samples@, e as nat),
            forall|x: int|
                0 <= x < edges ==> (#[trigger] seen@[x] <==> on_some_path(
                    samples@,
                    samples@.len() as int,
                    x,
                )),
        decreases edges - e,
    {
        if seen[e] {
            covered = covered + 1;
        }
        e = e + 1;
    }
    covered
}

// ----------------------------------------------------------- price lookup

/// How far apart two distances are.
pub open spec fn apart(a: int, b: int) -> int {
    if a < b {
        b - a
    } else {
        a - b
    }
}

/// Whether distance `i` of a list is the nearest to `km`, the first one among
/// equals.
pub open spec fn is_nearest(kms: Seq<u32>, km: int, i: int) -> bool {
    &&& 0 <= i < kms.len()
    &&& forall|j: int|
        0 <= j < kms.len() ==> apart(kms[i] as int, km) <= apart(#[trigger] kms[j] as int, km)
    &&& forall|j: int|
        0 <= j < i ==> apart(kms[i] as int, km) < apart(#[trigger] kms[j] as int, km)
}

/// The distances of a curve.
pub open spec fn row_distances(curve: Seq<DistanceRow>) -> Seq<u32> {
    Seq::new(curve.len(), |i: int| curve[i].km)
}

fn distance_between(a: u32, b: u32) -> (r: u32)
    ensures
        r == apart(a as int, b as int),
{
    if a < b {
        b - a
    } else {
        a - b
    }
}

/// Look a tariff distance, in whole kilometres, up in the empirical price curve:
/// the median of the nearest tabulated distance.
pub fn price_at(curve: &[DistanceRow], km: u32) -> (r: Option<u64>)
    ensures
        match r {
            Some(price) => exists|i: int|
                #[trigger] is_nearest(row_distances(curve@), km as int, i) && price
                    == curve@[i].median2,
            None => curve@.len() == 0,
        },
{
    if curve.len() == 0 {
        return None;
    }
    let ghost kms = row_distances(curve@);
    let mut best: usize = 0;
    let mut off: u32 = distance_between(curve[0].km, km);
    let mut i: usize = 1;
    while i < curve.len()
        invariant
            kms == row_distances(curve@),
            0 <= best < i <= curve@.len(),
            off == apart(kms[best as int] as int, km as int),
            forall|j: int| 0 <= j < i ==> off <= apart(#[trigger] kms[j] as int, km as int),
            forall|j: int| 0 <= j < best ==> off < apart(#[trigger] kms[j] as int, km as int),
        decreases curve@.len() - i,
    {
        let d: u32 = distance_between(curve[i].km, km);
        assert(kms[i as int] == curve@[i as int].km);
        if d < off {
            best = i;
            off = d;
        }
        i = i + 1;
    }
    assert(is_nearest(kms, km as int, best as int));
    Some(curve[best].median2)
}

/// A distance in whole kilometres, rounded half up and at least one.
pub open spec fn whole_km(length: nat, per_km: nat) -> nat {
    let km = (2 * length + per_km) / (2 * per_km);
    if km < 1 {
        1
    } else {
        km
    }
}

/// Among the estimates order is automatic: tariff kilometres accumulate along the
/// chosen route and the fitted price curve never falls, so a leg of a journey is
/// never estimated dearer than the whole. This holds of any tariff kilometres per
/// edge.
pub proof fn law_estimates_never_fall_along_a_route(
    adj: Adjacency,
    w: Seq<u64>,
    src: int,
    dst: int,
    route: Seq<(int, int)>,
    k: int,
    tariff: Seq<u64>,
    per_km: nat,
    kms: Seq<u32>,
    xs: Seq<u64>,
    ws: Seq<u64>,
    levels: Seq<Mean>,
    leg: int,
    whole: int,
)
    requires
        is_chosen_route(adj, w, src, dst, route),
        0 <= k <= route.len(),
        per_km > 0,
        forall|i: int, j: int|
            #![trigger kms[i], kms[j]]
            0 <= i < j < kms.len() ==> kms[i] < kms[j],
        levels.len() == kms.len(),
        is_monotone_fit(xs, ws, levels),
        is_nearest(
            kms,
            whole_km(edges_weight(tariff, route_edges(adj, route.take(k))), per_km) as int,
            leg,
        ),
        is_nearest(
            kms,
            whole_km(edges_weight(tariff, route_edges(adj, route)), per_km) as int,
            whole,
        ),
    ensures
        is_chosen_route(adj, w, src, route_node(dst, route, k), route.take(k)),
        mean_le(levels[leg], levels[whole]),
{
    law_sub_routes_agree(adj, w, src, dst, route, k);
    let edges = route_edges(adj, route);
    assert(route_edges(adj, route.take(k)) =~= edges.take(k));
    lemma_prefix_lighter(tariff, edges, k);
    let short = edges_weight(tariff, edges.take(k));
    let long = edges_weight(tariff, edges);
    assert((2 * short + per_km) / (2 * per_km) <= (2 * long + per_km) / (2 * per_km))
        by (nonlinear_arith)
        requires
            short <= long,
            per_km > 0,
    ;
    let a = whole_km(short, per_km) as int;
    let b = whole_km(long, per_km) as int;
    assert(leg <= whole) by {
        if leg > whole {
            assert(kms[whole] < kms[leg]);
            assert(apart(kms[leg] as int, a) < apart(kms[whole] as int, a));
            assert(apart(kms[whole] as int, b) <= apart(kms[leg] as int, b));
        }
    }
}

proof fn lemma_prefix_lighter(tariff: Seq<u64>, edges: Seq<u32>, k: int)
    requires
        0 <= k <= edges.len(),
    ensures
        edges_weight(tariff, edges.take(k)) <= edges_weight(tariff, edges),
    decreases edges.len(),
{
    if k == edges.len() {
        assert(edges.take(k) =~= edges);
    } else {
        assert(edges.drop_last().take(k) =~= edges.take(k));
        lemma_prefix_lighter(tariff, edges.drop_last(), k);
    }
}

// --------------------------------------------------------- the exact tier

/// The cheapest published price of a pair of stations, by station index.
#[derive(Debug, Clone, Copy, PartialEq, Eq, Structural)]
pub struct ExactPrice {
    pub a: u32,
    pub b: u32,
    pub adult2: u64,
    pub adult1: Option<u64>,
    pub half2: Option<u64>,
    pub km: u32,
}

/// Whether a row of the exact tier gives a fare as it is published.
pub open spec fn is_published(rels: Seq<RelationModel>, fare: PairFare, row: ExactPrice) -> bool {
    let published = rels[fare.relation as int];
    &&& row.a == fare.a
    &&& row.b == fare.b
    &&& published.columns.adult2 == Some(row.adult2)
    &&& row.adult1 == published.columns.adult1
    &&& row.half2 == published.columns.half2
    &&& row.km == published.km
}

/// The exact tier: cheapest real price per station pair, keyed by index.
pub fn exact_prices(relations: &Vec<Relation>, fares: &Vec<PairFare>) -> (r: Vec<ExactPrice>)
    requires
        forall|i: int|
            0 <= i < fares@.len() ==> (#[trigger] fares@[i]).relation < relations@.len()
                && relations@[fares@[i].relation as int].adult2 is Some,
    ensures
        r@.len() == fares@.len(),
        forall|i: int|
            0 <= i < r@.len() ==> is_published(
                relation_models(relations@),
                fares@[i],
                #[trigger] r@[i],
            ),
        forall|i: int|
            0 <= i < r@.len() ==> {
                let published = relations@[fares@[i].relation as int];
                &&& (#[trigger] r@[i]).a == fares@[i].a
                &&& r@[i].b == fares@[i].b
                &&& published.adult2 == Some(r@[i].adult2)
                &&& r@[i].adult1 == published.adult1
                &&& r@[i].half2 == published.half2
                &&& r@[i].km == published.km
            },
{
    let mut out: Vec<ExactPrice> = Vec::new();
    let mut i: usize = 0;
    while i < fares.len()
        invariant
            forall|k: int|
                0 <= k < fares@.len() ==> (#[trigger] fares@[k]).relation < relations@.len()
                    && relations@[fares@[k].relation as int].adult2 is Some,
            i <= fares@.len(),
            out@.len() == i,
            forall|k: int|
                0 <= k < out@.len() ==> is_published(
                    relation_models(relations@),
                    fares@[k],
                    #[trigger] out@[k],
                ),
        decreases fares@.len() - i,
    {
        let fare = fares[i];
        let r = &relations[fare.relation];
        if let Some(adult2) = r.adult2 {
            out.push(
                ExactPrice {
                    a: fare.a,
                    b: fare.b,
                    adult2,
                    adult1: r.adult1,
                    half2: r.half2,
                    km: r.km,
                },
            );
        }
        i = i + 1;
    }
    out
}

/// A published fare is authoritative: every pair of stations that any relation
/// prices has exactly one row in the exact tier, with a price, kilometres and
/// other columns that stand in one of its relations as published, and no relation
/// of the pair is cheaper.
pub proof fn law_published_fares_are_authoritative(
    rels: Seq<RelationModel>,
    uic: Map<Seq<char>, usize>,
    fares: Seq<PairFare>,
    rows: Seq<ExactPrice>,
    pair: (u32, u32),
    i: int,
) -> (x: int)
    requires
        fares_increase(fares),
        lists_cheapest(rels, uic, rels.len() as int, fares),
        rows.len() == fares.len(),
        forall|y: int| 0 <= y < rows.len() ==> is_published(rels, fares[y], #[trigger] rows[y]),
        prices_pair(rels, uic, pair, i),
    ensures
        0 <= x < rows.len(),
        (rows[x].a, rows[x].b) == pair,
        rows[x].adult2 <= rels[i].columns.adult2->0,
        prices_pair(rels, uic, pair, fares[x].relation as int),
        is_published(rels, fares[x], rows[x]),
        forall|y: int|
            0 <= y < rows.len() && ((#[trigger] rows[y]).a, rows[y].b) == pair ==> y == x,
{
    assert(has_pair(fares, pair));
    let x = choose|x: int|
        0 <= x < fares.len() && (#[trigger] fares[x]).a == pair.0 && fares[x].b == pair.1;
    assert(is_published(rels, fares[x], rows[x]));
    assert(is_cheapest(rels, uic, (fares[x].a, fares[x].b), rels.len() as int, fares[x].relation as int));
    assert forall|y: int|
        0 <= y < rows.len() && ((#[trigger] rows[y]).a, rows[y].b) == pair implies y == x by {
        assert(is_published(rels, fares[y], rows[y]));
        if y < x {
            assert(fares[y].a < fares[x].a || fares[y].b < fares[x].b);
        }
        if x < y {
            assert(fares[x].a < fares[y].a || fares[x].b < fares[y].b);
        }
    }
    x
}

// ----------------------------------------------- which fares and rows are meant

/// A number leads to the first station that has it; stations without a number, and
/// numbers that no station has, lead nowhere.
pub proof fn law_a_number_leads_to_its_first_station<C>(
    stations: Seq<NatStation<C>>,
    k: nat,
    uic: Seq<char>,
)
    requires
        k <= stations.len() <= usize::MAX,
    ensures
        ({
            let map = uic_map(stations, k);
            &&& map.dom().contains(uic) <==> uic.len() > 0 && exists|i: int|
                0 <= i < k && (#[trigger] stations[i]).uic@ == uic
            &&& map.dom().contains(uic) ==> {
                &&& map[uic] < k
                &&& stations[map[uic] as int].uic@ == uic
                &&& forall|i: int| 0 <= i < map[uic] ==> (#[trigger] stations[i]).uic@ != uic
            }
        }),
    decreases k,
{
    if k > 0 {
        law_a_number_leads_to_its_first_station(stations, (k - 1) as nat, uic);
        let before = uic_map(stations, (k - 1) as nat);
        if exists|i: int| 0 <= i < k - 1 && (#[trigger] stations[i]).uic@ == uic {
            let i = choose|i: int| 0 <= i < k - 1 && (#[trigger] stations[i]).uic@ == uic;
            assert(stations[i].uic@ == uic);
        }
        if stations[k - 1].uic@ == uic && !before.dom().contains(uic) && uic.len() > 0 {
            assert(stations[k - 1].uic@ == uic);
            assert forall|i: int| 0 <= i < k - 1 implies (#[trigger] stations[i]).uic@ != uic by {}
        }
    }
}

/// Every relation that prices a pair of known stations has a fare listed for that
/// pair, no dearer than itself, and of two equally cheap ones the earlier.
pub proof fn law_no_relation_is_cheaper_than_the_fare(
    relations: Seq<Relation>,
    uic: Map<Seq<char>, usize>,
    fares: Seq<PairFare>,
    j: int,
) -> (x: int)
    requires
        lists_cheapest(relation_models(relations), uic, relations.len() as int, fares),
        0 <= j < relations.len(),
        relations[j].adult2 is Some,
        uic.dom().contains(relations[j].from@),
        uic.dom().contains(relations[j].to@),
        uic[relations[j].from@] <= u32::MAX,
        uic[relations[j].to@] <= u32::MAX,
        uic[relations[j].from@] != uic[relations[j].to@],
    ensures
        0 <= x < fares.len(),
        fares[x].a < fares[x].b,
        fares[x].a == uic[relations[j].from@] && fares[x].b == uic[relations[j].to@] || fares[x].a
            == uic[relations[j].to@] && fares[x].b == uic[relations[j].from@],
        fares[x].relation < relations.len(),
        relations[fares[x].relation as int].adult2 is Some,
        relations[fares[x].relation as int].adult2->0 <= relations[j].adult2->0,
        j < fares[x].relation ==> relations[fares[x].relation as int].adult2->0
            < relations[j].adult2->0,
{
    let rels = relation_models(relations);
    assert(rels[j] == relations[j]@);
    let pair = edge_between(uic[relations[j].from@] as u32, uic[relations[j].to@] as u32);
    assert(prices_pair(rels, uic, pair, j));
    assert(has_pair(fares, pair));
    let x = choose|x: int|
        0 <= x < fares.len() && (#[trigger] fares[x]).a == pair.0 && fares[x].b == pair.1;
    assert(is_cheapest(
        rels,
        uic,
        (fares[x].a, fares[x].b),
        relations.len() as int,
        fares[x].relation as int,
    ));
    assert(rels[fares[x].relation as int] == relations[fares[x].relation as int]@);
    x
}

/// Every fare listed is that of a relation between its two stations, in either
/// direction.
pub proof fn law_a_fare_is_between_its_stations(
    relations: Seq<Relation>,
    uic: Map<Seq<char>, usize>,
    fares: Seq<PairFare>,
    x: int,
)
    requires
        lists_cheapest(relation_models(relations), uic, relations.len() as int, fares),
        0 <= x < fares.len(),
        forall|id: Seq<char>| #[trigger] uic.dom().contains(id) ==> uic[id] <= u32::MAX,
    ensures
        ({
            let r = relations[fares[x].relation as int];
            &&& fares[x].relation < relations.len()
            &&& fares[x].a < fares[x].b
            &&& r.adult2 is Some
            &&& uic.dom().contains(r.from@) && uic.dom().contains(r.to@)
            &&& fares[x].a == uic[r.from@] && fares[x].b == uic[r.to@] || fares[x].a == uic[r.to@]
                && fares[x].b == uic[r.from@]
        }),
{
    let rels = relation_models(relations);
    let i = fares[x].relation as int;
    assert(is_cheapest(rels, uic, (fares[x].a, fares[x].b), relations.len() as int, i));
    assert(prices_pair(rels, uic, (fares[x].a, fares[x].b), i));
    assert(rels[i] == relations[i]@);
    assert(uic.dom().contains(rels[i].from) && uic.dom().contains(rels[i].to));
}

/// The samples are for the fares whose stations the graph connects, in their order,
/// each with the distance and the adult second-class price of its relation.
pub proof fn law_samples_are_the_connected_fares(
    adj: Adjacency,
    w: Seq<u64>,
    relations: Seq<Relation>,
    fares: Seq<PairFare>,
    k: nat,
    fare: PairFare,
    sample: Sample,
)
    requires
        k <= fares.len(),
        fare.relation < relations.len(),
        is_sample(adj, w, relation_models(relations), fare, sample),
    ensures
        routed(adj, fares, k) == fares.take(k as int).filter(
            |f: PairFare| connected(adj, f.a as int, f.b as int),
        ),
        sample.km == relations[fare.relation as int].km,
        relations[fare.relation as int].adult2 == Some(sample.price),
{
    lemma_routed_filter(adj, fares, k);
    assert(relation_models(relations)[fare.relation as int]
        == relations[fare.relation as int]@);
}

pub proof fn lemma_routed_filter(adj: Adjacency, fares: Seq<PairFare>, k: nat)
    requires
        k <= fares.len(),
    ensures
        routed(adj, fares, k) == fares.take(k as int).filter(
            |f: PairFare| connected(adj, f.a as int, f.b as int),
        ),
    decreases k,
{
    reveal(Seq::filter);
    if k > 0 {
        lemma_routed_filter(adj, fares, (k - 1) as nat);
        assert(fares.take(k as int).drop_last() =~= fares.take(k - 1));
    }
}

/// Every fifth sample is held out, the first among them; the others stay, in their
/// order.
pub proof fn law_every_fifth_sample_is_held_out(samples: Seq<Sample>, k: nat)
    requires
        k <= samples.len(),
    ensures
        part_of(samples, k, true) == Seq::new((k + 4) as nat / 5, |i: int| samples[5 * i]),
        part_of(samples, k, false) == Seq::new(
            (k - (k + 4) / 5) as nat,
            |i: int| samples[5 * (i / 4) + i % 4 + 1],
        ),
        HOLD_OUT == 5,
    decreases k,
{
    if k > 0 {
        law_every_fifth_sample_is_held_out(samples, (k - 1) as nat);
        let j = k - 1;
        let held = (j + 4) / 5;
        let kept = j - held;
        if j % 5 == 0 {
            assert((k + 4) as nat / 5 == held + 1);
            assert(5 * held == j);
        } else {
            assert((k + 4) as nat / 5 == held);
            assert(5 * (kept / 4) + kept % 4 + 1 == j);
        }
        assert(part_of(samples, k, true) =~= Seq::new(
            (k + 4) as nat / 5,
            |i: int| samples[5 * i],
        ));
        assert(part_of(samples, k, false) =~= Seq::new(
            (k - (k + 4) / 5) as nat,
            |i: int| samples[5 * (i / 4) + i % 4 + 1],
        ));
    } else {
        assert(part_of(samples, k, true) =~= Seq::new(
            (k + 4) as nat / 5,
            |i: int| samples[5 * i],
        ));
        assert(part_of(samples, k, false) =~= Seq::new(
            (k - (k + 4) / 5) as nat,
            |i: int| samples[5 * (i / 4) + i % 4 + 1],
        ));
    }
}

/// An edge is covered when some sample's route takes it, and counts once.
pub proof fn law_covered_edges_lie_on_routes(samples: Seq<Sample>, edge: nat)
    ensures
        covered_count(samples, 0) == 0,
        covered_count(samples, edge + 1) == covered_count(samples, edge) + (if exists|
            i: int,
            j: int,
        |
            0 <= i < samples.len() && 0 <= j < samples[i].path@.len()
                && #[trigger] samples[i].path@[j] == edge {
            1int
        } else {
            0
        }),
{
    let n = samples.len() as int;
    let e = edge as int;
    if on_some_path(samples, n, e) {
        let i = choose|i: int|
            0 <= i < n && #[trigger] route_takes(
                samples[i].path@,
                samples[i].path@.len() as int,
                e,
            );
        let path = samples[i].path@;
        let j = choose|j: int| 0 <= j < path.len() && #[trigger] path[j] == e;
        assert(samples[i].path@[j] == edge);
    }
    if exists|i: int, j: int|
        0 <= i < samples.len() && 0 <= j < samples[i].path@.len()
            && #[trigger] samples[i].path@[j] == edge {
        let (i, j) = choose|i: int, j: int|
            0 <= i < samples.len() && 0 <= j < samples[i].path@.len()
                && #[trigger] samples[i].path@[j] == edge;
        let path = samples[i].path@;
        assert(path[j] == e);
        assert(route_takes(samples[i].path@, samples[i].path@.len() as int, e));
    }
}

/// A distance is priced by the row nearest to it: no row is nearer, and every earlier
/// one is farther away.
pub proof fn law_the_nearest_row_prices_a_distance(curve: Seq<DistanceRow>, km: u32, i: int, j: int)
    requires
        is_nearest(row_distances(curve), km as int, i),
        0 <= j < curve.len(),
    ensures
        0 <= i < curve.len(),
        ({
            let here = curve[i].km - km;
            let there = curve[j].km - km;
            &&& here * here <= there * there
            &&& j < i ==> here * here < there * there
        }),
{
    let kms = row_distances(curve);
    let a = apart(kms[i] as int, km as int);
    let b = apart(kms[j] as int, km as int);
    assert(kms[i] == curve[i].km && kms[j] == curve[j].km);
    let here = curve[i].km - km;
    let there = curve[j].km - km;
    assert(a <= b);
    assert(here * here <= there * there) by (nonlinear_arith)
        requires
            0 <= a <= b,
            a == here || a == -here,
            b == there || b == -there,
    ;
    if j < i {
        assert(a < b);
        assert(here * here < there * there) by (nonlinear_arith)
            requires
                0 <= a < b,
                a == here || a == -here,
                b == there || b == -there,
        ;
    }
}

/// A length is taken to the nearest whole kilometre, halves up, and to one where it is
/// shorter than half a kilometre.
pub proof fn law_lengths_round_to_the_nearest_kilometre(length: nat, per_km: nat)
    requires
        per_km > 0,
    ensures
        whole_km(length, per_km) >= 1,
        2 * length >= per_km ==> 2 * (whole_km(length, per_km) * per_km) - per_km <= 2 * length < 2
            * (whole_km(length, per_km) * per_km) + per_km,
        2 * length < per_km ==> whole_km(length, per_km) == 1,
{
    let a = (2 * length + per_km) as int;
    let b = (2 * per_km) as int;
    let q = a / b;
    assert(b * q <= a < b * q + b) by (nonlinear_arith)
        requires
            b > 0,
            q == a / b,
    ;
    assert(b * q == 2 * (q * per_km)) by (nonlinear_arith)
        requires
            b == 2 * per_km,
    ;
    if 2 * length < per_km {
        assert(q < 1) by (nonlinear_arith)
            requires
                b * q <= a,
                a < b,
                b > 0,
        ;
    } else {
        assert(q >= 1) by (nonlinear_arith)
            requires
                a < b * q + b,
                a >= b,
                b > 0,
        ;
    }
}

/// A sample runs over the edges of the chosen route between its stations, in order.
pub proof fn law_a_sample_runs_over_its_route(
    adj: Adjacency,
    w: Seq<u64>,
    rels: Seq<RelationModel>,
    fare: PairFare,
    sample: Sample,
) -> (route: Seq<(int, int)>)
    requires
        is_sample(adj, w, rels, fare, sample),
    ensures
        is_chosen_route(adj, w, fare.a as int, fare.b as int, route),
        sample.path@.len() == route.len(),
        forall|i: int|
            0 <= i < route.len() ==> #[trigger] sample.path@[i] == adj[route[i].0][route[i].1].1,
{
    choose|route: Seq<(int, int)>|
        #[trigger] is_chosen_route(adj, w, fare.a as int, fare.b as int, route) && sample.path@
            == route_edges(adj, route)
}

/// A row of the exact tier is the relation that its fare names, column for column: the
/// full adult price in each class, the second-class price with a Halbtax, and the
/// tariff kilometres, between the stations of the fare.
pub proof fn law_an_exact_price_is_its_relation(
    relations: Seq<Relation>,
    fare: PairFare,
    exact: ExactPrice,
)
    requires
        fare.relation < relations.len(),
        is_published(relation_models(relations), fare, exact),
    ensures
        ({
            let relation = relations[fare.relation as int];
            &&& Some(exact.adult2) == relation.adult2
            &&& exact.adult1 == relation.adult1
            &&& exact.half2 == relation.half2
            &&& exact.km == relation.km
            &&& (exact.a, exact.b) == (fare.a, fare.b)
        }),
{
    assert(relation_models(relations)[fare.relation as int] == relations[fare.relation as int]@);
}

/// Nothing else of a relation shows in the exact tier: where two lists of relations agree
/// in the columns above, one and the same row is published from both, whatever their
/// first-class prices with a Halbtax, their prices for children and their routes.
pub proof fn law_other_columns_leave_exact_prices_alone(
    some: Seq<Relation>,
    others: Seq<Relation>,
    fare: PairFare,
    exact: ExactPrice,
)
    requires
        fare.relation < some.len(),
        fare.relation < others.len(),
        some[fare.relation as int].adult2 == others[fare.relation as int].adult2,
        some[fare.relation as int].adult1 == others[fare.relation as int].adult1,
        some[fare.relation as int].half2 == others[fare.relation as int].half2,
        some[fare.relation as int].km == others[fare.relation as int].km,
    ensures
        is_published(relation_models(some), fare, exact) <==> is_published(
            relation_models(others),
            fare,
            exact,
        ),
{
    assert(relation_models(some)[fare.relation as int] == some[fare.relation as int]@);
    assert(relation_models(others)[fare.relation as int] == others[fare.relation as int]@);
}

} // verus!
