//! The national Direkter Verkehr tariff.
//!
//! The tariff comes from the OSDM offline file, a machine-readable subset of Swiss
//! public transport fares that carries, for each of thousands of relations, the
//! tariff distance, the permitted via-route, and the price per passenger type,
//! class and reduction card. It covers a few hundred stations, so it calibrates
//! and validates the distance-to-price model rather than replacing it.

use crate::calibrate::{
    covered_count, covered_edges, exact_prices, fares_increase, index_by_uic, is_cheapest,
    is_published, is_sample, lists_cheapest, part_of, paths_exist, prices_pair, route_samples,
    law_every_fifth_sample_is_held_out, law_samples_are_the_connected_fares, lemma_routed_filter,
    routed, split_samples, uic_map,
};
use crate::components::{is_partition, row_graph};
use crate::curve::{
    count_moved, first_class, first_levels, is_monotone_fit, isotonic_curve, moved_count,
    range_weight, row_weights, second_class, second_levels,
};
use crate::osdm::{
    build_relations, build_stations, by_distance, delivered_relations, is_curve,
    lemma_sorted_by_distance, measure_spread, price_curve, relation_count, relation_models,
    row_shares, sorts_relations, sorts_stations, station_models, worst_spread, Fare, PriceEntry,
    RegionalConstraint, Spread,
};
use crate::routes::{
    all_positive, connected, has_edges, is_chosen_route, numberable, numbered_edges, route_edges,
    steps_exist,
    wired, Adjacency, EdgeGraph,
};
use crate::rail::{
    component_sizes, links_to, lists_links, rail_graph, sizes_of, train_links, walk_count,
    walk_links, with_edge, RailEdge, RailLink,
};
use crate::seqs::nested;
use crate::sorting::sorted;
use crate::web::{
    column_price, curve_columns, edge_rows, exact_columns, neighbour_rows, CurveColumns,
    ExactColumns,
};
use vstd::prelude::*;

pub use crate::calibrate::{cheapest_fares, price_at, ExactPrice, PairFare, Sample};
pub use crate::curve::CurvePoint;
pub use crate::osdm::{DistanceRow, Relation, Station, OSDM_DATASET, OSDM_URL};
pub use crate::rail::{NatGraph, NatStation};
pub use crate::unions::{build_fare_unions, FareUnion, TVK_URL};

verus! {

// ----------------------------------------------------------------- tariff

/// What a delivery of fares gives.
#[derive(Debug)]
pub struct Tariff {
    /// By UIC number.
    pub stations: Vec<Station>,
    /// By distance, then by stations.
    pub relations: Vec<Relation>,
    pub curve: Vec<DistanceRow>,
    /// How badly distance alone predicts price.
    pub spread: Spread,
}

/// Whether measurements are those of a curve.
pub open spec fn is_spread(curve: Seq<DistanceRow>, spread: Spread) -> bool {
    &&& spread.total == relation_count(curve, curve.len(), false)
    &&& spread.ambiguous == relation_count(curve, curve.len(), true)
    &&& spread.worst == worst_spread(curve, curve.len())
    &&& spread.shares@ == sorted(row_shares(curve, curve.len()))
}

/// Builds the tariff from the parts of a delivery.
pub fn build(
    prices: &Vec<PriceEntry>,
    fares: &Vec<Fare>,
    constraints: &Vec<RegionalConstraint>,
    names: &Vec<Station>,
) -> (r: Tariff)
    ensures
        sorts_stations(station_models(names@), station_models(r.stations@)),
        sorts_relations(
            delivered_relations(prices@, fares@, constraints@),
            relation_models(r.relations@),
        ),
        by_distance(relation_models(r.relations@)),
        is_curve(relation_models(r.relations@), r.curve@),
        is_spread(r.curve@, r.spread),
        r.spread.total == relation_count(r.curve@, r.curve@.len(), false),
        r.spread.ambiguous == relation_count(r.curve@, r.curve@.len(), true),
        r.spread.worst == worst_spread(r.curve@, r.curve@.len()),
        r.spread.shares@ == sorted(row_shares(r.curve@, r.curve@.len())),
{
    let relations = build_relations(prices, fares, constraints);
    proof {
        lemma_sorted_by_distance(
            delivered_relations(prices@, fares@, constraints@),
            relation_models(relations@),
        );
    }
    let curve = price_curve(&relations);
    let stations = build_stations(names);
    let spread = measure_spread(&curve);
    Tariff { stations, relations, curve, spread }
}

// ------------------------------------------------------------ rail network

/// The rail graph, and how it holds together.
#[derive(Debug)]
pub struct Network<M, S> {
    pub graph: NatGraph<M, S>,
    /// Walks between stations that share no service.
    pub walks: usize,
    /// The sizes of its connected parts, the largest first.
    pub sizes: Vec<usize>,
}

/// Whether every link leads to a station that has a link back.
spec fn links_mutual<M, S>(links: Seq<Seq<RailLink<M, S>>>) -> bool {
    forall|u: int, k: int|
        #![trigger links[u][k]]
        0 <= u < links.len() && 0 <= k < links[u].len() ==> links[u][k].to < links.len()
            && links_to(links, links[u][k].to, u as u32)
}

proof fn lemma_edge_keeps_mutual<M, S>(
    links: Seq<Seq<RailLink<M, S>>>,
    u: u32,
    v: u32,
    metres: M,
    seconds: S,
)
    requires
        links_mutual(links),
        u < links.len(),
        v < links.len(),
    ensures
        links_mutual(with_edge(links, u, v, metres, seconds)),
        with_edge(links, u, v, metres, seconds).len() == links.len(),
{
    let there = links.update(u as int, links[u as int].push(RailLink { to: v, metres, seconds }));
    let both = with_edge(links, u, v, metres, seconds);
    assert forall|x: int, k: int| 0 <= x < links.len() && 0 <= k < links[x].len() implies both[x][k]
        == #[trigger] links[x][k] && both[x].len() >= links[x].len() by {
        assert(there[x][k] == links[x][k]);
    }
    assert(both[u as int][links[u as int].len() as int].to == v) by {
        assert(there[u as int][links[u as int].len() as int].to == v);
    }
    assert(both[v as int][there[v as int].len() as int].to == u);
    assert(links_to(both, u, v) && links_to(both, v, u));
    assert forall|x: int, k: int|
        #![trigger both[x][k]]
        0 <= x < both.len() && 0 <= k < both[x].len() implies both[x][k].to < both.len()
        && links_to(both, both[x][k].to, x as u32) by {
        if k < links[x].len() {
            let y = links[x][k].to;
            assert(both[x][k] == links[x][k]);
            assert(links_to(links, y, x as u32));
            let i = choose|i: int|
                0 <= i < links[y as int].len() && (#[trigger] links[y as int][i]).to == x as u32;
            assert(both[y as int][i] == links[y as int][i]);
        } else if k < there[x].len() {
            assert(both[x][k] == there[x][k]);
        }
    }
}

proof fn lemma_train_links<M, S>(n: nat, edges: Seq<RailEdge<M, S>>, k: nat)
    requires
        k <= edges.len(),
        forall|i: int| 0 <= i < edges.len() ==> (#[trigger] edges[i]).u < n && edges[i].v < n,
    ensures
        train_links(n, edges, k).len() == n,
        links_mutual(train_links(n, edges, k)),
    decreases k,
{
    if k > 0 {
        lemma_train_links(n, edges, (k - 1) as nat);
        let e = edges[k - 1];
        lemma_edge_keeps_mutual(
            train_links(n, edges, (k - 1) as nat),
            e.u,
            e.v,
            e.metres,
            e.seconds,
        );
    }
}

proof fn lemma_walk_links<M, S>(
    trains: Seq<Seq<RailLink<M, S>>>,
    near: Seq<(u32, u32)>,
    walk: S,
    free: M,
    k: nat,
)
    requires
        k <= near.len(),
        links_mutual(trains),
        forall|i: int|
            0 <= i < near.len() ==> (#[trigger] near[i]).0 < trains.len() && near[i].1
                < trains.len(),
    ensures
        walk_links(trains, near, walk, free, k).len() == trains.len(),
        links_mutual(walk_links(trains, near, walk, free, k)),
    decreases k,
{
    if k > 0 {
        lemma_walk_links(trains, near, walk, free, (k - 1) as nat);
        let p = near[k - 1];
        lemma_edge_keeps_mutual(
            walk_links(trains, near, walk, free, (k - 1) as nat),
            p.0,
            p.1,
            free,
            walk,
        );
    }
}

/// Builds the rail graph of `n` stations from the edges of the trains and the
/// stations near one another, and finds its connected parts. A walk between two
/// near stations takes `walk` and is as long as `free` says, which is nothing where
/// lengths are billed.
pub fn build_graph<M: Copy, S: Copy>(
    n: usize,
    edges: &Vec<RailEdge<M, S>>,
    near: &Vec<(u32, u32)>,
    walk: S,
    free: M,
) -> (r: Network<M, S>)
    requires
        n <= u32::MAX,
        forall|i: int|
            0 <= i < edges@.len() ==> (#[trigger] edges@[i]).u < n && edges@[i].v < n,
        forall|i: int| 0 <= i < near@.len() ==> (#[trigger] near@[i]).0 < n && near@[i].1 < n,
    ensures
        ({
            let trains = train_links(n as nat, edges@, edges@.len());
            &&& lists_links(r.graph, walk_links(trains, near@, walk, free, near@.len()))
            &&& r.walks == walk_count(trains, near@, walk, free, near@.len())
        }),
        exists|comps: Seq<Seq<u32>>|
            #[trigger] is_partition(row_graph(nested(r.graph.adjacency@)), comps) && sizes_of(
                comps,
                r.sizes@,
            ),
{
    let ghost trains = train_links(n as nat, edges@, edges@.len());
    let ghost links = walk_links(trains, near@, walk, free, near@.len());
    let (graph, walks) = rail_graph(n, edges, near, walk, free);
    let ghost rows = nested(graph.adjacency@);
    proof {
        lemma_train_links(n as nat, edges@, edges@.len());
        lemma_walk_links(trains, near@, walk, free, near@.len());
        assert forall|u: int| 0 <= u < rows.len() implies #[trigger] rows[u] == Seq::new(
            links[u].len(),
            |i: int| links[u][i].to,
        ) by {
            assert(graph.adjacency@[u]@ == rows[u]);
        }
        assert forall|u: int, i: int|
            #![trigger rows[u][i]]
            0 <= u < rows.len() && 0 <= i < rows[u].len() implies rows[u][i] < rows.len()
            && rows[rows[u][i] as int].contains(u as u32) by {
            let v = links[u][i].to;
            assert(links_to(links, v, u as u32));
            let j = choose|j: int|
                0 <= j < links[v as int].len() && (#[trigger] links[v as int][j]).to == u as u32;
            assert(rows[v as int][j] == u as u32);
        }
    }
    let sizes = component_sizes(&graph.adjacency);
    let r = Network { graph, walks, sizes };
    proof {
        let comps = choose|comps: Seq<Seq<u32>>|
            #[trigger] is_partition(row_graph(rows), comps) && sizes_of(comps, sizes@);
        assert(is_partition(row_graph(nested(r.graph.adjacency@)), comps));
        assert(sizes_of(comps, r.sizes@));
    }
    r
}

/// Whether one of the first `k` near pairs joins two stations, either way round.
pub open spec fn is_near(near: Seq<(u32, u32)>, k: nat, u: u32, v: u32) -> bool {
    exists|x: int|
        0 <= x < k && (#[trigger] near[x] == (u, v) || near[x] == (v, u))
}

/// Whether near pairs and the edges of trains name stations below `n`.
pub open spec fn ends_known<M, S>(
    n: nat,
    edges: Seq<RailEdge<M, S>>,
    near: Seq<(u32, u32)>,
) -> bool {
    &&& forall|x: int| 0 <= x < edges.len() ==> (#[trigger] edges[x]).u < n && edges[x].v < n
    &&& forall|x: int| 0 <= x < near.len() ==> (#[trigger] near[x]).0 < n && near[x].1 < n
}

proof fn lemma_walks_follow<M, S>(
    trains: Seq<Seq<RailLink<M, S>>>,
    near: Seq<(u32, u32)>,
    walk: S,
    free: M,
    k: nat,
    u: int,
)
    requires
        k <= near.len(),
        links_mutual(trains),
        forall|x: int|
            0 <= x < near.len() ==> (#[trigger] near[x]).0 < trains.len() && near[x].1
                < trains.len(),
        0 <= u < trains.len(),
        trains.len() <= u32::MAX,
    ensures
        ({
            let row = walk_links(trains, near, walk, free, k)[u];
            &&& row.len() >= trains[u].len()
            &&& forall|i: int| 0 <= i < trains[u].len() ==> #[trigger] row[i] == trains[u][i]
            &&& forall|i: int|
                trains[u].len() <= i < row.len() ==> {
                    &&& (#[trigger] row[i]).metres == free
                    &&& row[i].seconds == walk
                    &&& is_near(near, k, u as u32, row[i].to)
                }
        }),
    decreases k,
{
    if k > 0 {
        let rest = walk_links(trains, near, walk, free, (k - 1) as nat);
        let links = walk_links(trains, near, walk, free, k);
        lemma_walk_links(trains, near, walk, free, (k - 1) as nat);
        lemma_walks_follow(trains, near, walk, free, (k - 1) as nat, u);
        let p = near[k - 1];
        let row = links[u];
        assert forall|i: int| trains[u].len() <= i < row.len() implies {
            &&& (#[trigger] row[i]).metres == free
            &&& row[i].seconds == walk
            &&& is_near(near, k, u as u32, row[i].to)
        } by {
            if i < rest[u].len() {
                assert(row[i] == rest[u][i]);
                let v = row[i].to;
                assert(is_near(near, (k - 1) as nat, u as u32, v));
                let x = choose|x: int|
                    0 <= x < k - 1 && (#[trigger] near[x] == (u as u32, v) || near[x] == (
                        v,
                        u as u32,
                    ));
                assert(near[x] == (u as u32, v) || near[x] == (v, u as u32));
            } else {
                assert(near[k - 1] == (u as u32, row[i].to) || near[k - 1] == (
                    row[i].to,
                    u as u32,
                ));
            }
        }
    }
}

/// A walk costs time but no tariff kilometres, and joins near stations only: every
/// link of the network is one that a train makes, or one between a near pair that
/// takes `walk` and is as long as `free` says.
pub proof fn law_walks_are_free<M, S>(
    n: nat,
    edges: Seq<RailEdge<M, S>>,
    near: Seq<(u32, u32)>,
    walk: S,
    free: M,
    u: int,
    i: int,
)
    requires
        n <= u32::MAX,
        ends_known(n, edges, near),
        0 <= u < n,
        0 <= i < walk_links(
            train_links(n, edges, edges.len()),
            near,
            walk,
            free,
            near.len(),
        )[u].len(),
    ensures
        ({
            let trains = train_links(n, edges, edges.len());
            let link = walk_links(trains, near, walk, free, near.len())[u][i];
            if i < trains[u].len() {
                link == trains[u][i]
            } else {
                &&& link.metres == free
                &&& link.seconds == walk
                &&& is_near(near, near.len(), u as u32, link.to)
            }
        }),
{
    let trains = train_links(n, edges, edges.len());
    lemma_train_links(n, edges, edges.len());
    lemma_walks_follow(trains, near, walk, free, near.len(), u);
}

/// Whether a link stands in a row and is the only one there to its station.
pub open spec fn only_link<M, S>(row: Seq<RailLink<M, S>>, link: RailLink<M, S>) -> bool {
    exists|i: int|
        {
            &&& 0 <= i < row.len()
            &&& #[trigger] row[i] == link
            &&& forall|j: int|
                0 <= j < row.len() && (#[trigger] row[j]).to == link.to ==> j == i
        }
}

proof fn lemma_one_walk<M, S>(
    trains: Seq<Seq<RailLink<M, S>>>,
    near: Seq<(u32, u32)>,
    walk: S,
    free: M,
    k: nat,
    u: u32,
    v: u32,
)
    requires
        k <= near.len(),
        links_mutual(trains),
        forall|x: int|
            0 <= x < near.len() ==> (#[trigger] near[x]).0 < trains.len() && near[x].1
                < trains.len(),
        u < trains.len(),
        v < trains.len(),
        u != v,
        !links_to(trains, u, v),
    ensures
        ({
            let row = walk_links(trains, near, walk, free, k)[u as int];
            if is_near(near, k, u, v) {
                only_link(row, RailLink { to: v, metres: free, seconds: walk })
            } else {
                forall|j: int| 0 <= j < row.len() ==> (#[trigger] row[j]).to != v
            }
        }),
    decreases k,
{
    let links = walk_links(trains, near, walk, free, k);
    let new = RailLink { to: v, metres: free, seconds: walk };
    if k > 0 {
        let rest = walk_links(trains, near, walk, free, (k - 1) as nat);
        lemma_one_walk(trains, near, walk, free, (k - 1) as nat, u, v);
        lemma_walk_links(trains, near, walk, free, (k - 1) as nat);
        let p = near[k - 1];
        let before = rest[u as int];
        let after = links[u as int];
        assert(is_near(near, k, u, v) <==> is_near(near, (k - 1) as nat, u, v) || p == (u, v) || p
            == (v, u)) by {
            if is_near(near, (k - 1) as nat, u, v) {
                let x = choose|x: int|
                    0 <= x < k - 1 && (#[trigger] near[x] == (u, v) || near[x] == (v, u));
                assert(near[x] == (u, v) || near[x] == (v, u));
            }
            if p == (u, v) || p == (v, u) {
                assert(near[k - 1] == p);
            }
        }
        // A link one way is a link the other way, so both ways round ask the same.
        assert(links_to(rest, u, v) <==> links_to(rest, v, u)) by {
            if links_to(rest, u, v) {
                let i = choose|i: int|
                    0 <= i < rest[u as int].len() && (#[trigger] rest[u as int][i]).to == v;
                assert(rest[u as int][i].to == v);
            }
            if links_to(rest, v, u) {
                let i = choose|i: int|
                    0 <= i < rest[v as int].len() && (#[trigger] rest[v as int][i]).to == u;
                assert(rest[v as int][i].to == u);
            }
        }
        assert(links_to(rest, u, v) <==> is_near(near, (k - 1) as nat, u, v)) by {
            if is_near(near, (k - 1) as nat, u, v) {
                let i = choose|i: int|
                    {
                        &&& 0 <= i < before.len()
                        &&& #[trigger] before[i] == new
                        &&& forall|j: int|
                            0 <= j < before.len() && (#[trigger] before[j]).to == v ==> j == i
                    };
                assert(rest[u as int][i].to == v);
            }
        }
        if is_near(near, (k - 1) as nat, u, v) {
            let i = choose|i: int|
                {
                    &&& 0 <= i < before.len()
                    &&& #[trigger] before[i] == new
                    &&& forall|j: int|
                        0 <= j < before.len() && (#[trigger] before[j]).to == v ==> j == i
                };
            assert(after[i] == new);
            assert forall|j: int| 0 <= j < after.len() && (#[trigger] after[j]).to == v implies j
                == i by {
                if j < before.len() {
                    assert(after[j] == before[j]);
                }
            }
        } else if p == (u, v) || p == (v, u) {
            assert(after =~= before.push(new));
            assert(after[before.len() as int] == new);
            assert forall|j: int| 0 <= j < after.len() && (#[trigger] after[j]).to == v implies j
                == before.len() by {
                if j < before.len() {
                    assert(after[j] == before[j]);
                }
            }
        } else {
            assert forall|j: int| 0 <= j < after.len() implies (#[trigger] after[j]).to != v by {
                if j < before.len() {
                    assert(after[j] == before[j]);
                }
            }
        }
    } else {
        assert forall|j: int| 0 <= j < links[u as int].len() implies (#[trigger] links[u as int][j]).to
            != v by {
            assert(trains[u as int][j] == links[u as int][j]);
        }
    }
}

/// Two near stations that no train joins are joined by exactly one link each way,
/// which takes `walk` and is as long as `free` says.
pub proof fn law_near_stations_are_joined_once<M, S>(
    n: nat,
    edges: Seq<RailEdge<M, S>>,
    near: Seq<(u32, u32)>,
    walk: S,
    free: M,
    u: u32,
    v: u32,
)
    requires
        n <= u32::MAX,
        ends_known(n, edges, near),
        u != v,
        is_near(near, near.len(), u, v),
        !links_to(train_links(n, edges, edges.len()), u, v),
    ensures
        ({
            let trains = train_links(n, edges, edges.len());
            let links = walk_links(trains, near, walk, free, near.len());
            &&& only_link(links[u as int], RailLink { to: v, metres: free, seconds: walk })
            &&& only_link(links[v as int], RailLink { to: u, metres: free, seconds: walk })
        }),
{
    let trains = train_links(n, edges, edges.len());
    lemma_train_links(n, edges, edges.len());
    let x = choose|x: int|
        0 <= x < near.len() && (#[trigger] near[x] == (u, v) || near[x] == (v, u));
    assert(near[x].0 < n && near[x].1 < n);
    assert(is_near(near, near.len(), v, u)) by {
        assert(near[x] == (v, u) || near[x] == (u, v));
    }
    assert(!links_to(trains, v, u)) by {
        if links_to(trains, v, u) {
            let i = choose|i: int|
                0 <= i < trains[v as int].len() && (#[trigger] trains[v as int][i]).to == u;
            assert(links_to(trains, trains[v as int][i].to, v));
        }
    }
    lemma_one_walk(trains, near, walk, free, near.len(), u, v);
    lemma_one_walk(trains, near, walk, free, near.len(), v, u);
}

// ------------------------------------------------------------ calibration

/// What calibrating needs and gives beside the fitted kilometres.
#[derive(Debug)]
pub struct Calibrated<M> {
    pub graph: EdgeGraph<M, u64>,
    /// The cheapest published fare per pair of stations.
    pub fares: Vec<PairFare>,
    /// The routes to fit on, and those held out.
    pub train: Vec<Sample>,
    pub test: Vec<Sample>,
    /// Edges that some route to fit on takes.
    pub covered_edges: usize,
    /// The price curve that never falls, and how many distances it moves.
    pub monotone: Vec<CurvePoint>,
    pub moved: usize,
    /// The exact tier.
    pub exact: Vec<ExactPrice>,
}

/// Whether the samples of `fares` are split into these.
pub open spec fn splits_samples<M>(
    graph: EdgeGraph<M, u64>,
    relations: Seq<Relation>,
    fares: Seq<PairFare>,
    samples: Seq<Sample>,
    train: Seq<Sample>,
    test: Seq<Sample>,
) -> bool {
    let adj = graph.steps();
    let kept = routed(adj, fares, fares.len());
    &&& samples.len() == kept.len()
    &&& forall|i: int|
        0 <= i < samples.len() ==> is_sample(
            adj,
            graph.secs@,
            relation_models(relations),
            kept[i],
            #[trigger] samples[i],
        )
    &&& train == part_of(samples, samples.len(), false)
    &&& test == part_of(samples, samples.len(), true)
}

proof fn lemma_route_in_range(
    adj: Adjacency,
    w: Seq<u64>,
    src: int,
    dst: int,
    route: Seq<(int, int)>,
    edges: nat,
)
    requires
        steps_exist(adj, edges),
        is_chosen_route(adj, w, src, dst, route),
    ensures
        forall|i: int|
            0 <= i < route.len() ==> #[trigger] route_edges(adj, route)[i] < edges,
    decreases route.len(),
{
    if route.len() > 0 {
        let (u, j) = route.last();
        let front = route.drop_last();
        lemma_route_in_range(adj, w, src, u, front, edges);
        assert forall|i: int| 0 <= i < route.len() implies #[trigger] route_edges(adj, route)[i]
            < edges by {
            if i < front.len() {
                assert(route_edges(adj, front)[i] == route_edges(adj, route)[i]);
            } else {
                assert(adj[u][j].1 < edges);
            }
        }
    }
}

proof fn lemma_parts_exist(samples: Seq<Sample>, k: nat, held_out: bool, edges: int)
    requires
        k <= samples.len(),
        paths_exist(samples, edges),
    ensures
        paths_exist(part_of(samples, k, held_out), edges),
    decreases k,
{
    if k > 0 {
        lemma_parts_exist(samples, (k - 1) as nat, held_out, edges);
        let rest = part_of(samples, (k - 1) as nat, held_out);
        let part = part_of(samples, k, held_out);
        assert forall|i: int, j: int|
            #![trigger part[i].path@[j]]
            0 <= i < part.len() && 0 <= j < part[i].path@.len() implies part[i].path@[j] < edges by {
            if i < rest.len() {
                assert(part[i] == rest[i]);
                assert(rest[i].path@[j] < edges);
            } else {
                assert(part[i] == samples[k - 1]);
                assert(samples[k - 1].path@[j] < edges);
            }
        }
    }
}

/// Everything about the calibration that is not fitted: which published fares hold
/// between stations of the rail graph, along which routes, which of them are held
/// out, the monotone price curve and the exact tier. `missing` is the run time of
/// an edge for which the graph gives none; a distance counts as moved when its price
/// moved by more than the `fineness`-th part of a unit.
pub fn calibrate<C, M: Copy>(
    stations: &Vec<NatStation<C>>,
    rail: &NatGraph<M, u64>,
    missing: u64,
    relations: &Vec<Relation>,
    curve: &Vec<DistanceRow>,
    fineness: u32,
) -> (r: Calibrated<M>)
    requires
        fineness > 0,
        numberable(*rail, missing),
        stations@.len() <= rail.adjacency@.len(),
        forall|e: int|
            0 <= e < numbered_edges(*rail, missing, rail.adjacency@.len()).len()
                ==> (#[trigger] numbered_edges(*rail, missing, rail.adjacency@.len())[e]).secs > 0,
        range_weight(row_weights(curve@), 0, curve@.len() as int) <= u32::MAX,
    ensures
        has_edges(r.graph, numbered_edges(*rail, missing, rail.adjacency@.len())),
        r.graph.steps() == wired(
            rail.adjacency@.len(),
            numbered_edges(*rail, missing, rail.adjacency@.len()),
            numbered_edges(*rail, missing, rail.adjacency@.len()).len(),
        ),
        fares_increase(r.fares@),
        lists_cheapest(
            relation_models(relations@),
            uic_map(stations@, stations@.len()),
            relations@.len() as int,
            r.fares@,
        ),
        exists|samples: Seq<Sample>| #[trigger]
            splits_samples(r.graph, relations@, r.fares@, samples, r.train@, r.test@),
        r.covered_edges == covered_count(r.train@, r.graph.secs@.len()),
        r.monotone@.len() == curve@.len(),
        forall|i: int| 0 <= i < r.monotone@.len() ==> (#[trigger] r.monotone@[i]).km == curve@[i].km,
        is_monotone_fit(second_class(curve@), row_weights(curve@), second_levels(r.monotone@)),
        is_monotone_fit(
            first_class(curve@, curve@.len()),
            row_weights(curve@),
            first_levels(r.monotone@),
        ),
        r.moved == moved_count(curve@, r.monotone@, fineness, curve@.len()),
        r.exact@.len() == r.fares@.len(),
        forall|i: int|
            0 <= i < r.exact@.len() ==> is_published(
                relation_models(relations@),
                r.fares@[i],
                #[trigger] r.exact@[i],
            ),
        forall|i: int|
            0 <= i < r.exact@.len() ==> {
                let published = relations@[r.fares@[i].relation as int];
                &&& (#[trigger] r.exact@[i]).a == r.fares@[i].a
                &&& r.exact@[i].b == r.fares@[i].b
                &&& published.adult2 == Some(r.exact@[i].adult2)
                &&& r.exact@[i].adult1 == published.adult1
                &&& r.exact@[i].half2 == published.half2
                &&& r.exact@[i].km == published.km
            },
{
    let ghost rels = relation_models(relations@);
    let ghost all = numbered_edges(*rail, missing, rail.adjacency@.len());
    let graph = EdgeGraph::from(rail, missing);
    let index = index_by_uic(stations);
    let fares = cheapest_fares(relations, &index);
    proof {
        assert(all_positive(graph.secs@)) by {
            assert forall|e: int| 0 <= e < graph.secs@.len() implies #[trigger] graph.secs@[e]
                > 0 by {
                assert(graph.secs@[e] == all[e].secs);
            }
        }
        assert forall|i: int| 0 <= i < fares@.len() implies {
            &&& (#[trigger] fares@[i]).a < graph.adj@.len()
            &&& fares@[i].b < graph.adj@.len()
            &&& fares@[i].a != fares@[i].b
            &&& fares@[i].relation < relations@.len()
            &&& relations@[fares@[i].relation as int].adult2 is Some
        } by {
            let pair = (fares@[i].a, fares@[i].b);
            let at = fares@[i].relation as int;
            assert(is_cheapest(rels, index@, pair, relations@.len() as int, at));
            assert(prices_pair(rels, index@, pair, at));
            assert(index@.dom().contains(rels[at].from) && index@.dom().contains(rels[at].to));
        }
    }
    let samples = route_samples(&graph, graph.secs.as_slice(), relations, &fares);
    let ghost found = samples@;
    let ghost edges = graph.secs@.len();
    proof {
        let adj = graph.steps();
        let kept = routed(adj, fares@, fares@.len());
        assert forall|i: int, j: int|
            #![trigger found[i].path@[j]]
            0 <= i < found.len() && 0 <= j < found[i].path@.len() implies found[i].path@[j]
            < edges by {
            assert(is_sample(adj, graph.secs@, rels, kept[i], found[i]));
            let route = choose|route: Seq<(int, int)>|
                #[trigger] is_chosen_route(
                    adj,
                    graph.secs@,
                    kept[i].a as int,
                    kept[i].b as int,
                    route,
                ) && found[i].path@ == route_edges(adj, route);
            lemma_route_in_range(
                adj,
                graph.secs@,
                kept[i].a as int,
                kept[i].b as int,
                route,
                edges,
            );
            assert(route_edges(adj, route)[j] < edges);
        }
        lemma_parts_exist(found, found.len(), false, edges as int);
    }
    let (train, test) = split_samples(samples);
    let covered: usize = covered_edges(&train, graph.secs.len());
    let monotone = isotonic_curve(curve);
    let moved: usize = count_moved(curve, &monotone, fineness);
    let exact = exact_prices(relations, &fares);
    let r = Calibrated {
        graph,
        fares,
        train,
        test,
        covered_edges: covered,
        monotone,
        moved,
        exact,
    };
    assert(splits_samples(r.graph, relations@, r.fares@, found, r.train@, r.test@));
    r
}

// -------------------------------------------------------------- the page

/// Everything the national page needs of the graph and the prices.
#[derive(Debug)]
pub struct WebTables<K, S> {
    pub adjacency: Vec<Vec<u32>>,
    pub edge_km: Vec<Vec<K>>,
    pub edge_secs: Vec<Vec<S>>,
    pub exact: ExactColumns,
    pub curve: CurveColumns,
}

/// Whether rows lay a value per edge out along the neighbours of each station.
pub open spec fn lays_out<T>(adj: Adjacency, n: nat, values: Seq<T>, rows: Seq<Vec<T>>) -> bool {
    &&& rows.len() == n
    &&& forall|u: int|
        0 <= u < n ==> (#[trigger] rows[u])@ == Seq::new(
            adj[u].len(),
            |k: int| values[adj[u][k].1 as int],
        )
}

/// Lays the model out for the page: the same edge numbering as the calibration
/// used, the published prices as they are, and the monotone curve.
pub fn build_web<M: Copy, S: Copy, K: Copy>(
    n: usize,
    rail: &NatGraph<M, S>,
    missing: S,
    edge_km: &[K],
    curve: &Vec<CurvePoint>,
    exact: &Vec<ExactPrice>,
) -> (r: WebTables<K, S>)
    requires
        numberable(*rail, missing),
        n <= rail.adjacency@.len(),
        edge_km@.len() >= numbered_edges(*rail, missing, rail.adjacency@.len()).len(),
    ensures
        ({
            let edges = numbered_edges(*rail, missing, rail.adjacency@.len());
            let adj = wired(rail.adjacency@.len(), edges, edges.len());
            &&& r.adjacency@.len() == n
            &&& forall|u: int|
                0 <= u < n ==> (#[trigger] r.adjacency@[u])@ == Seq::new(
                    adj[u].len(),
                    |k: int| adj[u][k].0,
                )
            &&& lays_out(adj, n as nat, edge_km@, r.edge_km@)
            &&& lays_out(
                adj,
                n as nat,
                Seq::new(edges.len(), |e: int| edges[e].secs),
                r.edge_secs@,
            )
        }),
        r.exact.a@ == Seq::new(exact@.len(), |i: int| exact@[i].a),
        r.exact.b@ == Seq::new(exact@.len(), |i: int| exact@[i].b),
        r.exact.p2@ == Seq::new(exact@.len(), |i: int| exact@[i].adult2),
        r.exact.p1@ == Seq::new(exact@.len(), |i: int| column_price(exact@[i].adult1)),
        r.exact.ph@ == Seq::new(exact@.len(), |i: int| column_price(exact@[i].half2)),
        r.exact.km@ == Seq::new(exact@.len(), |i: int| exact@[i].km),
        r.curve.km@ == Seq::new(curve@.len(), |i: int| curve@[i].km),
        r.curve.p2@ == Seq::new(curve@.len(), |i: int| curve@[i].p2),
        r.curve.p1@ == Seq::new(curve@.len(), |i: int| curve@[i].p1),
{
    let graph = EdgeGraph::from(rail, missing);
    let adjacency = neighbour_rows(&graph, n);
    let km_rows = edge_rows(&graph, n, edge_km);
    let secs_rows = edge_rows(&graph, n, graph.secs.as_slice());
    WebTables {
        adjacency,
        edge_km: km_rows,
        edge_secs: secs_rows,
        exact: exact_columns(exact),
        curve: curve_columns(curve),
    }
}

/// The samples of a calibration. Each is for a fare that has a route, with the tariff
/// kilometres and the adult second-class price of its relation; every fifth is held out
/// for testing, from the first on, and all others are trained on.
pub proof fn law_samples_are_published_prices<M>(
    graph: EdgeGraph<M, u64>,
    relations: Seq<Relation>,
    fares: Seq<PairFare>,
    samples: Seq<Sample>,
    train: Seq<Sample>,
    test: Seq<Sample>,
    i: int,
)
    requires
        splits_samples(graph, relations, fares, samples, train, test),
        0 <= i < samples.len(),
        forall|j: int| 0 <= j < fares.len() ==> (#[trigger] fares[j]).relation < relations.len(),
    ensures
        ({
            let kept = fares.filter(
                |f: PairFare| connected(graph.steps(), f.a as int, f.b as int),
            );
            &&& samples.len() == kept.len()
            &&& samples[i].km == relations[kept[i].relation as int].km
            &&& Some(samples[i].price) == relations[kept[i].relation as int].adult2
        }),
        test == Seq::new((samples.len() + 4) as nat / 5, |j: int| samples[5 * j]),
        train == Seq::new(
            (samples.len() - (samples.len() + 4) / 5) as nat,
            |j: int| samples[5 * (j / 4) + j % 4 + 1],
        ),
{
    reveal(Seq::filter);
    law_every_fifth_sample_is_held_out(samples, samples.len());
    let kept = routed(graph.steps(), fares, fares.len());
    lemma_routed_filter(graph.steps(), fares, fares.len());
    assert(fares.take(fares.len() as int) =~= fares);
    fares.lemma_filter_contains_rev(
        |f: PairFare| connected(graph.steps(), f.a as int, f.b as int),
        kept[i],
    );
    assert(is_sample(
        graph.steps(),
        graph.secs@,
        relation_models(relations),
        kept[i],
        samples[i],
    ));
    law_samples_are_the_connected_fares(
        graph.steps(),
        graph.secs@,
        relations,
        fares,
        fares.len(),
        kept[i],
        samples[i],
    );
}

/// The rows of the web tables follow the steps: the value at place `k` of row `u` is that
/// of the edge which the `k`-th step from `u` takes.
pub proof fn law_rows_follow_the_steps<T>(
    adj: Adjacency,
    n: nat,
    values: Seq<T>,
    rows: Seq<Vec<T>>,
    u: int,
    k: int,
)
    requires
        lays_out(adj, n, values, rows),
        0 <= u < n,
        0 <= k < adj[u].len(),
    ensures
        rows.len() == n,
        rows[u]@.len() == adj[u].len(),
        rows[u]@[k] == values[adj[u][k].1 as int],
{
    assert(rows[u]@ == Seq::new(adj[u].len(), |j: int| values[adj[u][j].1 as int]));
}

} // verus!
