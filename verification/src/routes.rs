//! Fastest routes over the rail graph.

use crate::heap::{Entry, MinHeap};
use crate::rail::NatGraph;
use crate::seqs::nested;
use vstd::multiset::Multiset;
use vstd::prelude::*;

verus! {

// ------------------------------------------------------------------ walks

/// The neighbours of every node, each with the number of the edge to it.
pub type Adjacency = Seq<Seq<(u32, u32)>>;

/// The node a walk from `src` ends at. A walk is the sequence of steps taken,
/// each by its position among the neighbours of the node it leaves from.
pub open spec fn walk_end(adj: Adjacency, src: int, walk: Seq<int>) -> int
    decreases walk.len(),
{
    if walk.len() == 0 {
        src
    } else {
        adj[walk_end(adj, src, walk.drop_last())][walk.last()].0 as int
    }
}

/// Whether every step of a walk exists.
pub open spec fn is_walk(adj: Adjacency, src: int, walk: Seq<int>) -> bool
    decreases walk.len(),
{
    walk.len() == 0 || {
        &&& is_walk(adj, src, walk.drop_last())
        &&& 0 <= walk.last() < adj[walk_end(adj, src, walk.drop_last())].len()
    }
}

/// The weight of a walk: that of its edges together.
pub open spec fn walk_weight(adj: Adjacency, w: Seq<u64>, src: int, walk: Seq<int>) -> nat
    decreases walk.len(),
{
    if walk.len() == 0 {
        0
    } else {
        walk_weight(adj, w, src, walk.drop_last()) + w[adj[walk_end(
            adj,
            src,
            walk.drop_last(),
        )][walk.last()].1 as int] as nat
    }
}

/// Whether a walk leads from `src` to `v` with this weight.
pub open spec fn walks_to(
    adj: Adjacency,
    w: Seq<u64>,
    src: int,
    v: int,
    d: nat,
    walk: Seq<int>,
) -> bool {
    &&& is_walk(adj, src, walk)
    &&& walk_end(adj, src, walk) == v
    &&& walk_weight(adj, w, src, walk) == d
}

/// Whether some walk leads from `src` to `v` with this weight.
pub open spec fn reached(adj: Adjacency, w: Seq<u64>, src: int, v: int, d: nat) -> bool {
    exists|walk: Seq<int>| walks_to(adj, w, src, v, d, walk)
}

/// Whether any walk leads from `src` to `v`.
pub open spec fn connected(adj: Adjacency, src: int, v: int) -> bool {
    exists|walk: Seq<int>| #[trigger] is_walk(adj, src, walk) && walk_end(adj, src, walk) == v
}

/// Whether the lightest walk from `src` to `v` weighs `d`.
pub open spec fn is_distance(adj: Adjacency, w: Seq<u64>, src: int, v: int, d: nat) -> bool {
    &&& reached(adj, w, src, v, d)
    &&& forall|walk: Seq<int>| #[trigger]
        is_walk(adj, src, walk) && walk_end(adj, src, walk) == v ==> d <= walk_weight(
            adj,
            w,
            src,
            walk,
        )
}

/// The weight of the lightest walk from `src` to `v`.
pub open spec fn distance(adj: Adjacency, w: Seq<u64>, src: int, v: int) -> nat {
    choose|d: nat| is_distance(adj, w, src, v, d)
}

/// Whether step `j` out of `u` can be the last one of a lightest walk to `v`.
pub open spec fn is_last_step(
    adj: Adjacency,
    w: Seq<u64>,
    src: int,
    v: int,
    u: int,
    j: int,
) -> bool {
    &&& 0 <= u < adj.len()
    &&& 0 <= j < adj[u].len()
    &&& adj[u][j].0 == v
    &&& is_distance(adj, w, src, u, distance(adj, w, src, u))
    &&& distance(adj, w, src, u) + w[adj[u][j].1 as int] == distance(adj, w, src, v)
}

/// Whether step `j` out of `u` is the last one of the chosen walk to `v`: of all
/// that can be, the one out of the node with the smallest index, and the first of
/// those out of that node. Without a fixed rule two equally fast routes could be
/// chosen inconsistently for different destinations.
pub open spec fn is_chosen_step(
    adj: Adjacency,
    w: Seq<u64>,
    src: int,
    v: int,
    u: int,
    j: int,
) -> bool {
    &&& is_last_step(adj, w, src, v, u, j)
    &&& forall|x: int, k: int| #[trigger]
        is_last_step(adj, w, src, v, x, k) ==> u < x || (u == x && j <= k)
}

/// Whether `route`, a sequence of nodes and the step taken out of each, is the
/// chosen one from `src` to `dst`.
pub open spec fn is_chosen_route(
    adj: Adjacency,
    w: Seq<u64>,
    src: int,
    dst: int,
    route: Seq<(int, int)>,
) -> bool
    decreases route.len(),
{
    if route.len() == 0 {
        src == dst
    } else {
        let (u, j) = route.last();
        &&& src != dst
        &&& is_chosen_step(adj, w, src, dst, u, j)
        &&& is_chosen_route(adj, w, src, u, route.drop_last())
    }
}

/// The edges of a route.
pub open spec fn route_edges(adj: Adjacency, route: Seq<(int, int)>) -> Seq<u32> {
    Seq::new(route.len(), |i: int| adj[route[i].0][route[i].1].1)
}

/// Whether every step leads to a node and over an edge that exists.
pub open spec fn steps_exist(adj: Adjacency, edges: nat) -> bool {
    forall|u: int, j: int|
        #![trigger adj[u][j]]
        0 <= u < adj.len() && 0 <= j < adj[u].len() ==> adj[u][j].0 < adj.len() && adj[u][j].1
            < edges
}

/// Whether every edge weighs something.
pub open spec fn all_positive(w: Seq<u64>) -> bool {
    forall|e: int| 0 <= e < w.len() ==> #[trigger] w[e] > 0
}

proof fn lemma_walk_in_range(adj: Adjacency, edges: nat, src: int, walk: Seq<int>)
    requires
        steps_exist(adj, edges),
        0 <= src < adj.len(),
        is_walk(adj, src, walk),
    ensures
        0 <= walk_end(adj, src, walk) < adj.len(),
    decreases walk.len(),
{
    if walk.len() > 0 {
        lemma_walk_in_range(adj, edges, src, walk.drop_last());
    }
}

proof fn lemma_walk_on(adj: Adjacency, w: Seq<u64>, src: int, u: int, d: nat, j: int)
    requires
        reached(adj, w, src, u, d),
        0 <= j < adj[u].len(),
    ensures
        reached(adj, w, src, adj[u][j].0 as int, (d + w[adj[u][j].1 as int]) as nat),
{
    let walk = choose|walk: Seq<int>| walks_to(adj, w, src, u, d, walk);
    let longer = walk.push(j);
    assert(longer.drop_last() =~= walk);
    assert(walks_to(
        adj,
        w,
        src,
        adj[u][j].0 as int,
        (d + w[adj[u][j].1 as int]) as nat,
        longer,
    ));
}

proof fn lemma_distance_unique(adj: Adjacency, w: Seq<u64>, src: int, v: int, d: nat)
    requires
        is_distance(adj, w, src, v, d),
    ensures
        distance(adj, w, src, v) == d,
        connected(adj, src, v),
{
    let e = distance(adj, w, src, v);
    assert(is_distance(adj, w, src, v, e));
    let a = choose|walk: Seq<int>| walks_to(adj, w, src, v, d, walk);
    let b = choose|walk: Seq<int>| walks_to(adj, w, src, v, e, walk);
    assert(is_walk(adj, src, a));
    assert(is_walk(adj, src, b));
}

// ------------------------------------------------------------- the search

/// What is known of the last step to a node: the node it comes from.
spec fn step_node(prev: Option<(u32, usize)>) -> int {
    match prev {
        Some((p, j)) => p as int,
        None => -1,
    }
}

/// What is known of the last step to a node: which of the steps out of there.
spec fn step_place(prev: Option<(u32, usize)>) -> int {
    match prev {
        Some((p, j)) => j as int,
        None => -1,
    }
}

/// Whether the known last step to `v` is step `j` out of the settled node `p`.
spec fn arrives_by(
    adj: Adjacency,
    w: Seq<u64>,
    dist: Seq<Option<u128>>,
    settled: Set<int>,
    v: int,
    p: int,
    j: int,
) -> bool {
    &&& settled.contains(p)
    &&& 0 <= j < adj[p].len()
    &&& adj[p][j].0 == v
    &&& dist[p]->0 + w[adj[p][j].1 as int] == dist[v]->0
}

/// Whether what step `j` out of `x` leads to has been taken into account.
spec fn passed(
    adj: Adjacency,
    w: Seq<u64>,
    dist: Seq<Option<u128>>,
    prev: Seq<Option<(u32, usize)>>,
    src: int,
    x: int,
    j: int,
) -> bool {
    let v = adj[x][j].0 as int;
    let nd = dist[x]->0 + w[adj[x][j].1 as int];
    &&& dist[v] is Some
    &&& dist[v]->0 <= nd
    &&& dist[v]->0 == nd && v != src ==> prev[v] is Some && (step_node(prev[v]) < x || (step_node(
        prev[v],
    ) == x && step_place(prev[v]) <= j))
}

/// What is known of one node.
spec fn node_ok(
    adj: Adjacency,
    w: Seq<u64>,
    src: int,
    dist: Seq<Option<u128>>,
    prev: Seq<Option<(u32, usize)>>,
    settled: Set<int>,
    u: int,
    k: int,
    v: int,
) -> bool {
    dist[v] is Some ==> {
        &&& reached(adj, w, src, v, dist[v]->0 as nat)
        &&& v != src ==> {
            &&& prev[v] is Some
            &&& arrives_by(adj, w, dist, settled, v, step_node(prev[v]), step_place(prev[v]))
            &&& step_node(prev[v]) != u || step_place(prev[v]) < k
        }
    }
}

/// Where a search stands: what is known of every node, and which are settled. `u`
/// is the node being settled, `k` how many of its steps have been looked at.
spec fn search_ok(
    adj: Adjacency,
    w: Seq<u64>,
    src: int,
    dist: Seq<Option<u128>>,
    prev: Seq<Option<(u32, usize)>>,
    settled: Set<int>,
    u: int,
    k: int,
) -> bool {
    &&& dist.len() == adj.len()
    &&& prev.len() == adj.len()
    &&& dist[src] == Some(0u128)
    &&& prev[src] is None
    &&& forall|v: int| #[trigger] settled.contains(v) ==> 0 <= v < adj.len() && dist[v] is Some
    &&& forall|v: int|
        0 <= v < adj.len() ==> #[trigger] node_ok(adj, w, src, dist, prev, settled, u, k, v)
    &&& forall|x: int, j: int|
        #![trigger adj[x][j]]
        settled.contains(x) && 0 <= j < adj[x].len() && (x != u || j < k) ==> passed(
            adj,
            w,
            dist,
            prev,
            src,
            x,
            j,
        )
}

/// The queue entry of a node.
spec fn node_entry(v: int, d: u128) -> Entry {
    Entry { cost: d, hops: 0, node: v as u64, tag: 0 }
}

/// Whether the queue holds every node that is known but not settled, none of it
/// lighter than what is settled, nor than `floor`.
spec fn queue_ok(
    dist: Seq<Option<u128>>,
    settled: Set<int>,
    queue: Multiset<Entry>,
    floor: nat,
) -> bool {
    &&& forall|e: Entry| #[trigger]
        queue.contains(e) ==> e.node < dist.len() && dist[e.node as int] is Some
            && dist[e.node as int]->0 <= e.cost && floor <= e.cost
    &&& forall|v: int|
        0 <= v < dist.len() && (#[trigger] dist[v]) is Some && !settled.contains(v)
            ==> queue.contains(node_entry(v, dist[v]->0))
    &&& forall|v: int| #[trigger] settled.contains(v) ==> dist[v]->0 <= floor
}

/// Looking at one step that improves on what is known.
proof fn lemma_improved(
    adj: Adjacency,
    w: Seq<u64>,
    src: int,
    dist: Seq<Option<u128>>,
    prev: Seq<Option<(u32, usize)>>,
    settled: Set<int>,
    u: int,
    k: int,
    nd: u128,
)
    requires
        steps_exist(adj, w.len()),
        adj.len() <= u32::MAX,
        search_ok(adj, w, src, dist, prev, settled, u, k),
        settled.contains(u),
        0 <= src < adj.len(),
        0 <= k < adj[u].len(),
        k <= usize::MAX,
        nd == dist[u]->0 + w[adj[u][k].1 as int],
        nd > 0,
        forall|x: int| #[trigger] settled.contains(x) ==> dist[x]->0 < nd,
        dist[adj[u][k].0 as int] is None || nd < dist[adj[u][k].0 as int]->0,
    ensures
        ({
            let v = adj[u][k].0 as int;
            &&& !settled.contains(v)
            &&& search_ok(
                adj,
                w,
                src,
                dist.update(v, Some(nd)),
                prev.update(v, Some((u as u32, k as usize))),
                settled,
                u,
                k + 1,
            )
        }),
{
    let v = adj[u][k].0 as int;
    let dist2 = dist.update(v, Some(nd));
    let prev2 = prev.update(v, Some((u as u32, k as usize)));
    assert(!settled.contains(v));
    assert(v != src);
    assert(node_ok(adj, w, src, dist, prev, settled, u, k, u));
    lemma_walk_on(adj, w, src, u, dist[u]->0 as nat, k);
    assert forall|x: int| 0 <= x < adj.len() implies #[trigger] node_ok(
        adj,
        w,
        src,
        dist2,
        prev2,
        settled,
        u,
        k + 1,
        x,
    ) by {
        if x == v {
            assert(arrives_by(adj, w, dist2, settled, v, u, k));
        } else {
            assert(node_ok(adj, w, src, dist, prev, settled, u, k, x));
            if dist[x] is Some && x != src {
                let p = step_node(prev[x]);
                assert(settled.contains(p));
                assert(p != v);
            }
        }
    }
    assert forall|x: int, j: int|
        #![trigger adj[x][j]]
        settled.contains(x) && 0 <= j < adj[x].len() && (x != u || j < k + 1) implies passed(
        adj,
        w,
        dist2,
        prev2,
        src,
        x,
        j,
    ) by {
        if x == u && j == k {
        } else {
            assert(passed(adj, w, dist, prev, src, x, j));
        }
    }
}

/// Looking at one step that changes at most which last step is chosen.
proof fn lemma_tied(
    adj: Adjacency,
    w: Seq<u64>,
    src: int,
    dist: Seq<Option<u128>>,
    prev: Seq<Option<(u32, usize)>>,
    settled: Set<int>,
    u: int,
    k: int,
    nd: u128,
)
    requires
        steps_exist(adj, w.len()),
        adj.len() <= u32::MAX,
        search_ok(adj, w, src, dist, prev, settled, u, k),
        settled.contains(u),
        0 <= src < adj.len(),
        0 <= k < adj[u].len(),
        k <= usize::MAX,
        nd == dist[u]->0 + w[adj[u][k].1 as int],
        nd > 0,
        forall|x: int| #[trigger] settled.contains(x) ==> dist[x]->0 < nd,
        dist[adj[u][k].0 as int] is Some,
        dist[adj[u][k].0 as int]->0 <= nd,
    ensures
        ({
            let v = adj[u][k].0 as int;
            if dist[v]->0 == nd && u < step_node(prev[v]) {
                search_ok(
                    adj,
                    w,
                    src,
                    dist,
                    prev.update(v, Some((u as u32, k as usize))),
                    settled,
                    u,
                    k + 1,
                )
            } else {
                search_ok(adj, w, src, dist, prev, settled, u, k + 1)
            }
        }),
{
    let v = adj[u][k].0 as int;
    let swap = dist[v]->0 == nd && u < step_node(prev[v]);
    let prev2 = if swap {
        prev.update(v, Some((u as u32, k as usize)))
    } else {
        prev
    };
    assert(node_ok(adj, w, src, dist, prev, settled, u, k, v));
    if dist[v]->0 == nd {
        assert(v != src);
    }
    assert forall|x: int| 0 <= x < adj.len() implies #[trigger] node_ok(
        adj,
        w,
        src,
        dist,
        prev2,
        settled,
        u,
        k + 1,
        x,
    ) by {
        assert(node_ok(adj, w, src, dist, prev, settled, u, k, x));
        if x == v && swap {
            assert(arrives_by(adj, w, dist, settled, v, u, k));
        }
    }
    assert forall|x: int, j: int|
        #![trigger adj[x][j]]
        settled.contains(x) && 0 <= j < adj[x].len() && (x != u || j < k + 1) implies passed(
        adj,
        w,
        dist,
        prev2,
        src,
        x,
        j,
    ) by {
        if x == u && j == k {
        } else {
            assert(passed(adj, w, dist, prev, src, x, j));
        }
    }
}

/// A walk either ends at a settled node that is known at least as light, or it
/// weighs no less than whatever is not settled yet.
proof fn lemma_cut(
    adj: Adjacency,
    w: Seq<u64>,
    src: int,
    dist: Seq<Option<u128>>,
    prev: Seq<Option<(u32, usize)>>,
    settled: Set<int>,
    limit: nat,
    walk: Seq<int>,
)
    requires
        steps_exist(adj, w.len()),
        0 <= src < adj.len(),
        search_ok(adj, w, src, dist, prev, settled, -1, 0),
        forall|v: int|
            0 <= v < adj.len() && (#[trigger] dist[v]) is Some && !settled.contains(v)
                ==> dist[v]->0 >= limit,
        is_walk(adj, src, walk),
    ensures
        ({
            let y = walk_end(adj, src, walk);
            let d = walk_weight(adj, w, src, walk);
            (settled.contains(y) && dist[y]->0 <= d) || d >= limit
        }),
    decreases walk.len(),
{
    if walk.len() == 0 {
        assert(dist[src] is Some);
    } else {
        let front = walk.drop_last();
        lemma_cut(adj, w, src, dist, prev, settled, limit, front);
        lemma_walk_in_range(adj, w.len(), src, front);
        let x = walk_end(adj, src, front);
        let j = walk.last();
        if settled.contains(x) {
            assert(adj[x][j].0 < adj.len());
            assert(passed(adj, w, dist, prev, src, x, j));
            let y = adj[x][j].0 as int;
            assert(dist[y] is Some);
        }
    }
}

/// What is known of settled nodes, and of one more that is lightest of the rest,
/// is final.
proof fn lemma_final(
    adj: Adjacency,
    w: Seq<u64>,
    src: int,
    dist: Seq<Option<u128>>,
    prev: Seq<Option<(u32, usize)>>,
    settled: Set<int>,
    limit: nat,
    v: int,
)
    requires
        steps_exist(adj, w.len()),
        all_positive(w),
        0 <= src < adj.len(),
        search_ok(adj, w, src, dist, prev, settled, -1, 0),
        forall|x: int|
            0 <= x < adj.len() && (#[trigger] dist[x]) is Some && !settled.contains(x)
                ==> dist[x]->0 >= limit,
        forall|x: int| #[trigger] settled.contains(x) ==> dist[x]->0 <= limit,
        0 <= v < adj.len(),
        dist[v] is Some,
        settled.contains(v) || dist[v]->0 == limit,
    ensures
        is_distance(adj, w, src, v, dist[v]->0 as nat),
        distance(adj, w, src, v) == dist[v]->0,
        v != src ==> is_chosen_step(adj, w, src, v, step_node(prev[v]), step_place(prev[v])),
{
    lemma_final_distance(adj, w, src, dist, prev, settled, limit, v);
    assert(node_ok(adj, w, src, dist, prev, settled, -1, 0, v));
    if v != src {
        let p = step_node(prev[v]);
        let j = step_place(prev[v]);
        lemma_final_distance(adj, w, src, dist, prev, settled, limit, p);
        assert(is_last_step(adj, w, src, v, p, j));
        assert forall|x: int, k: int| #[trigger] is_last_step(adj, w, src, v, x, k) implies p < x
            || (p == x && j <= k) by {
            let d = distance(adj, w, src, x);
            let walk = choose|walk: Seq<int>| walks_to(adj, w, src, x, d, walk);
            lemma_cut(adj, w, src, dist, prev, settled, limit, walk);
            assert(adj[x][k].1 < w.len());
            assert(w[adj[x][k].1 as int] > 0);
            assert(settled.contains(x) && dist[x]->0 <= d);
            lemma_final_distance(adj, w, src, dist, prev, settled, limit, x);
            assert(passed(adj, w, dist, prev, src, x, k));
        }
    }
}

proof fn lemma_final_distance(
    adj: Adjacency,
    w: Seq<u64>,
    src: int,
    dist: Seq<Option<u128>>,
    prev: Seq<Option<(u32, usize)>>,
    settled: Set<int>,
    limit: nat,
    v: int,
)
    requires
        steps_exist(adj, w.len()),
        0 <= src < adj.len(),
        search_ok(adj, w, src, dist, prev, settled, -1, 0),
        forall|x: int|
            0 <= x < adj.len() && (#[trigger] dist[x]) is Some && !settled.contains(x)
                ==> dist[x]->0 >= limit,
        forall|x: int| #[trigger] settled.contains(x) ==> dist[x]->0 <= limit,
        0 <= v < adj.len(),
        dist[v] is Some,
        settled.contains(v) || dist[v]->0 == limit,
    ensures
        is_distance(adj, w, src, v, dist[v]->0 as nat),
        distance(adj, w, src, v) == dist[v]->0,
{
    assert(node_ok(adj, w, src, dist, prev, settled, -1, 0, v));
    assert forall|walk: Seq<int>| #[trigger]
        is_walk(adj, src, walk) && walk_end(adj, src, walk) == v implies dist[v]->0
        <= walk_weight(adj, w, src, walk) by {
        lemma_cut(adj, w, src, dist, prev, settled, limit, walk);
    }
    lemma_distance_unique(adj, w, src, v, dist[v]->0 as nat);
}

// ----------------------------------------------------------- the graph

/// The run time, in seconds, of an edge for which the rail graph gives none.
pub const MISSING_SECONDS: u32 = 600;

/// The rail graph with its edges numbered.
#[derive(Debug)]
pub struct EdgeGraph<M, S> {
    /// (neighbour, edge number) per node.
    pub adj: Vec<Vec<(u32, u32)>>,
    /// Length of each edge.
    pub metres: Vec<M>,
    /// Fastest scheduled run time per edge.
    pub secs: Vec<S>,
}

impl<M, S> EdgeGraph<M, S> {
    /// The neighbours of every node.
    pub open spec fn steps(&self) -> Adjacency {
        nested(self.adj@)
    }
}

/// A node on the route just found, one step back at a time.
fn trace_back(
    adj: &Vec<Vec<(u32, u32)>>,
    dst: u32,
    dist: &Vec<Option<u128>>,
    prev: &Vec<Option<(u32, usize)>>,
    w: Ghost<Seq<u64>>,
    src: Ghost<int>,
    settled: Ghost<Set<int>>,
    limit: Ghost<nat>,
) -> (r: Vec<u32>)
    requires
        steps_exist(nested(adj@), w@.len()),
        all_positive(w@),
        0 <= src@ < adj@.len(),
        search_ok(nested(adj@), w@, src@, dist@, prev@, settled@, -1, 0),
        forall|x: int|
            0 <= x < adj@.len() && (#[trigger] dist@[x]) is Some && !settled@.contains(x)
                ==> dist@[x]->0 >= limit@,
        forall|x: int| #[trigger] settled@.contains(x) ==> dist@[x]->0 <= limit@,
        dst < adj@.len(),
        dist@[dst as int] is Some,
        settled@.contains(dst as int) || dist@[dst as int]->0 == limit@,
    ensures
        exists|route: Seq<(int, int)>|
            #[trigger] is_chosen_route(
                nested(adj@),
                w@,
                src@,
                dst as int,
                route,
            ) && r@ == route_edges(nested(adj@), route),
{
    let ghost steps = nested(adj@);
    let mut back: Vec<u32> = Vec::new();
    let mut cur: u32 = dst;
    let ghost mut tail: Seq<(int, int)> = Seq::empty();
    proof {
        assert forall|head: Seq<(int, int)>| #[trigger]
            is_chosen_route(steps, w@, src@, cur as int, head) implies is_chosen_route(
            steps,
            w@,
            src@,
            dst as int,
            head + tail,
        ) by {
            assert(head + tail =~= head);
        }
    }
    while prev[cur as usize].is_some()
        invariant
            steps == nested(adj@),
            steps_exist(steps, w@.len()),
            all_positive(w@),
            0 <= src@ < adj@.len(),
            search_ok(steps, w@, src@, dist@, prev@, settled@, -1, 0),
            forall|x: int|
                0 <= x < adj@.len() && (#[trigger] dist@[x]) is Some && !settled@.contains(x)
                    ==> dist@[x]->0 >= limit@,
            forall|x: int| #[trigger] settled@.contains(x) ==> dist@[x]->0 <= limit@,
            cur < adj@.len(),
            dist@[cur as int] is Some,
            settled@.contains(cur as int) || dist@[cur as int]->0 == limit@,
            back@.len() == tail.len(),
            forall|i: int|
                0 <= i < back@.len() ==> #[trigger] back@[i] == steps[tail[tail.len() - 1
                    - i].0][tail[tail.len() - 1 - i].1].1,
            forall|head: Seq<(int, int)>| #[trigger]
                is_chosen_route(steps, w@, src@, cur as int, head) ==> is_chosen_route(
                    steps,
                    w@,
                    src@,
                    dst as int,
                    head + tail,
                ),
        decreases dist@[cur as int]->0,
    {
        if let Some((p, j)) = prev[cur as usize] {
            let ghost old_tail = tail;
            let ghost old_cur = cur as int;
            proof {
                assert(node_ok(
                    steps,
                    w@,
                    src@,
                    dist@,
                    prev@,
                    settled@,
                    -1,
                    0,
                    cur as int,
                ));
                lemma_final(
                    steps,
                    w@,
                    src@,
                    dist@,
                    prev@,
                    settled@,
                    limit@,
                    cur as int,
                );
                assert(steps[p as int] == adj@[p as int]@);
                assert(settled@.contains(p as int));
                assert(steps[p as int][j as int].1 < w@.len());
                assert(w@[steps[p as int][j as int].1 as int] > 0);
                tail = seq![(p as int, j as int)] + old_tail;
                assert forall|head: Seq<(int, int)>| #[trigger]
                    is_chosen_route(steps, w@, src@, p as int, head) implies is_chosen_route(
                    steps,
                    w@,
                    src@,
                    dst as int,
                    head + tail,
                ) by {
                    let longer = head.push((p as int, j as int));
                    assert(longer.drop_last() =~= head);
                    assert(is_chosen_route(steps, w@, src@, old_cur, longer));
                    assert(longer + old_tail =~= head + tail);
                }
            }
            back.push(adj[p as usize][j].1);
            proof {
                assert forall|i: int| 0 <= i < back@.len() implies #[trigger] back@[i]
                    == steps[tail[tail.len() - 1 - i].0][tail[tail.len() - 1 - i].1].1 by {
                    if i < old_tail.len() {
                        assert(tail[tail.len() - 1 - i] == old_tail[old_tail.len() - 1 - i]);
                    }
                }
            }
            cur = p;
        }
    }
    proof {
        assert(node_ok(steps, w@, src@, dist@, prev@, settled@, -1, 0, cur as int));
        assert(cur == src@);
        let none: Seq<(int, int)> = Seq::empty();
        assert(is_chosen_route(steps, w@, src@, cur as int, none));
        assert(none + tail =~= tail);
    }
    let mut out: Vec<u32> = Vec::new();
    let n: usize = back.len();
    while out.len() < n
        invariant
            n == back@.len(),
            n == tail.len(),
            out@.len() <= n,
            forall|i: int|
                0 <= i < back@.len() ==> #[trigger] back@[i] == steps[tail[tail.len() - 1
                    - i].0][tail[tail.len() - 1 - i].1].1,
            forall|i: int|
                0 <= i < out@.len() ==> #[trigger] out@[i] == steps[tail[i].0][tail[i].1].1,
        decreases n - out@.len(),
    {
        let at: usize = n - 1 - out.len();
        assert(back@[at as int] == steps[tail[out@.len() as int].0][tail[out@.len() as int].1].1);
        out.push(back[at]);
    }
    assert(out@ =~= route_edges(steps, tail));
    assert(is_chosen_route(steps, w@, src@, dst as int, tail));
    out
}

impl<M, S> EdgeGraph<M, S> {
    /// Cheapest path by `w`, returned as the list of edge numbers.
    pub fn path(&self, w: &[u64], src: u32, dst: u32) -> (r: Option<Vec<u32>>)
        requires
            self.adj@.len() <= u32::MAX,
            steps_exist(self.steps(), w@.len()),
            all_positive(w@),
            src < self.adj@.len(),
            dst < self.adj@.len(),
        ensures
            match r {
                Some(edges) => exists|route: Seq<(int, int)>|
                    #[trigger] is_chosen_route(
                        self.steps(),
                        w@,
                        src as int,
                        dst as int,
                        route,
                    ) && edges@ == route_edges(self.steps(), route),
                None => !connected(self.steps(), src as int, dst as int),
            },
    {
        let n: usize = self.adj.len();
        let ghost adj = self.steps();
        let ghost s = src as int;
        let mut dist: Vec<Option<u128>> = Vec::new();
        let mut prev: Vec<Option<(u32, usize)>> = Vec::new();
        let mut done: Vec<bool> = Vec::new();
        while dist.len() < n
            invariant
                dist@.len() <= n,
                prev@.len() == dist@.len(),
                done@.len() == dist@.len(),
                forall|v: int| 0 <= v < dist@.len() ==> #[trigger] dist@[v] == None::<u128>,
                forall|v: int| 0 <= v < dist@.len() ==> #[trigger] prev@[v] == None::<(u32, usize)>,
                forall|v: int| 0 <= v < dist@.len() ==> !#[trigger] done@[v],
            decreases n - dist@.len(),
        {
            dist.push(None);
            prev.push(None);
            done.push(false);
        }
        let mut heap = MinHeap::new();
        dist.set(src as usize, Some(0));
        heap.push(Entry { cost: 0, hops: 0, node: src as u64, tag: 0 });
        let ghost mut settled: Set<int> = Set::empty();
        let ghost mut floor: nat = 0;
        proof {
            broadcast use vstd::multiset::group_multiset_axioms;

            let none: Seq<int> = Seq::empty();
            assert(walks_to(adj, w@, s, s, 0, none));
            assert forall|v: int| 0 <= v < adj.len() implies #[trigger] node_ok(
                adj,
                w@,
                s,
                dist@,
                prev@,
                settled,
                -1,
                0,
                v,
            ) by {}
            assert(queue_ok(dist@, settled, heap@, 0));
        }
        loop
            invariant
                adj == self.steps(),
                s == src as int,
                n == self.adj@.len(),
                n == adj.len(),
                n <= u32::MAX,
                steps_exist(adj, w@.len()),
                all_positive(w@),
                src < n,
                dst < n,
                done@.len() == n,
                dist@.len() == n,
                prev@.len() == n,
                heap.wf(),
                settled.finite(),
                settled.len() <= n,
                forall|v: int| 0 <= v < n ==> (#[trigger] done@[v] <==> settled.contains(v)),
                search_ok(adj, w@, s, dist@, prev@, settled, -1, 0),
                queue_ok(dist@, settled, heap@, floor),
                forall|v: int|
                    0 <= v < n && (#[trigger] dist@[v]) is Some ==> dist@[v]->0 <= settled.len()
                        * 0xffff_ffff_ffff_ffff,
                !settled.contains(dst as int),
            decreases n - settled.len(), heap@.len(),
        {
            broadcast use vstd::multiset::group_multiset_axioms;

            let ghost queue = heap@;
            match heap.pop() {
                None => {
                    proof {
                        assert forall|x: int|
                            0 <= x < n && (#[trigger] dist@[x]) is Some implies settled.contains(
                            x,
                        ) by {
                            if !settled.contains(x) {
                                assert(queue.contains(node_entry(x, dist@[x]->0)));
                            }
                        }
                        if connected(adj, s, dst as int) {
                            let walk = choose|walk: Seq<int>|
                                #[trigger] is_walk(adj, s, walk) && walk_end(adj, s, walk)
                                    == dst as int;
                            lemma_cut(
                                adj,
                                w@,
                                s,
                                dist@,
                                prev@,
                                settled,
                                walk_weight(adj, w@, s, walk) + 1,
                                walk,
                            );
                        }
                    }
                    return None;
                },
                Some(entry) => {
                    let u: u32 = entry.node as u32;
                    let ghost d0 = dist@;
                    proof {
                        assert forall|x: int|
                            0 <= x < n && (#[trigger] dist@[x]) is Some && !settled.contains(
                                x,
                            ) implies dist@[x]->0 >= entry.cost by {
                            assert(queue.contains(node_entry(x, dist@[x]->0)));
                        }
                    }
                    if u == dst {
                        let out = trace_back(
                            &self.adj,
                            dst,
                            &dist,
                            &prev,
                            Ghost(w@),
                            Ghost(s),
                            Ghost(settled),
                            Ghost(entry.cost as nat),
                        );
                        return Some(out);
                    }
                    if !done[u as usize] {
                        done.set(u as usize, true);
                        let d: u128 = match dist[u as usize] {
                            Some(d) => d,
                            None => 0,
                        };
                        assert(d == entry.cost);
                        let ghost before = settled;
                        let ghost count = settled.len();
                        proof {
                            settled = settled.insert(u as int);
                            floor = entry.cost as nat;
                            vstd::set_lib::lemma_int_range(0, n as int);
                            let all = vstd::set_lib::set_int_range(0, n as int);
                            assert(settled.subset_of(all));
                            vstd::set_lib::lemma_len_subset(settled, all);
                            assert(count + 1 == settled.len());
                            lemma_settling(
                                adj,
                                w@,
                                s,
                                dist@,
                                prev@,
                                before,
                                u as int,
                            );
                            assert(queue_ok(dist@, settled, heap@, floor)) by {
                                assert forall|v: int|
                                    0 <= v < n && (#[trigger] dist@[v]) is Some
                                        && !settled.contains(v) implies heap@.contains(
                                    node_entry(v, dist@[v]->0),
                                ) by {
                                    assert(queue.contains(node_entry(v, dist@[v]->0)));
                                }
                                assert forall|e: Entry| #[trigger] heap@.contains(e) implies e.node
                                    < n && dist@[e.node as int] is Some && dist@[e.node as int]->0
                                    <= e.cost && floor <= e.cost by {
                                    assert(queue.contains(e));
                                }
                            }
                        }
                        let row = &self.adj[u as usize];
                        assert(adj[u as int] == row@);
                        let mut k: usize = 0;
                        while k < row.len()
                            invariant
                                adj == self.steps(),
                                n == adj.len(),
                                n <= u32::MAX,
                                s == src as int,
                                src < n,
                                steps_exist(adj, w@.len()),
                                all_positive(w@),
                                u < n,
                                row@ == adj[u as int],
                                k <= row@.len(),
                                dist@.len() == n,
                                prev@.len() == n,
                                heap.wf(),
                                settled.contains(u as int),
                                settled.len() == count + 1,
                                settled.len() <= n,
                                floor == d,
                                dist@[u as int] == Some(d),
                                d <= count * 0xffff_ffff_ffff_ffff,
                                search_ok(adj, w@, s, dist@, prev@, settled, u as int, k as int),
                                queue_ok(dist@, settled, heap@, floor),
                                forall|v: int|
                                    0 <= v < n && (#[trigger] dist@[v]) is Some ==> dist@[v]->0
                                        <= settled.len() * 0xffff_ffff_ffff_ffff,
                            decreases row@.len() - k,
                        {
                            let (v, e) = row[k];
                            assert(adj[u as int][k as int] == (v, e));
                            assert(w@[e as int] > 0);
                            let step: u64 = w[e as usize];
                            proof {
                                assert(d + step <= (count + 1) * 0xffff_ffff_ffff_ffff)
                                    by (nonlinear_arith)
                                    requires
                                        d <= count * 0xffff_ffff_ffff_ffff,
                                        step <= 0xffff_ffff_ffff_ffff,
                                ;
                                assert((count + 1) * 0xffff_ffff_ffff_ffff <= 0xffff_ffff
                                    * 0xffff_ffff_ffff_ffff) by (nonlinear_arith)
                                    requires
                                        count + 1 <= 0xffff_ffff,
                                ;
                            }
                            let nd: u128 = d + step as u128;
                            let improves = match dist[v as usize] {
                                None => true,
                                Some(known) => nd < known,
                            };
                            proof {
                                assert forall|x: int| #[trigger] settled.contains(x) implies dist@[
                                    x
                                ]->0 < nd by {}
                            }
                            if improves {
                                proof {
                                    lemma_improved(
                                        adj,
                                        w@,
                                        s,
                                        dist@,
                                        prev@,
                                        settled,
                                        u as int,
                                        k as int,
                                        nd,
                                    );
                                }
                                let ghost old_dist = dist@;
                                let ghost old_queue = heap@;
                                dist.set(v as usize, Some(nd));
                                prev.set(v as usize, Some((u, k)));
                                heap.push(
                                    Entry { cost: nd, hops: 0, node: v as u64, tag: 0 },
                                );
                                proof {
                                    assert(queue_ok(dist@, settled, heap@, floor)) by {
                                        assert forall|x: int|
                                            0 <= x < n && (#[trigger] dist@[x]) is Some
                                                && !settled.contains(x) implies heap@.contains(
                                            node_entry(x, dist@[x]->0),
                                        ) by {
                                            if x != v {
                                                assert(old_queue.contains(
                                                    node_entry(x, old_dist[x]->0),
                                                ));
                                            }
                                        }
                                        assert forall|q: Entry| #[trigger]
                                            heap@.contains(q) implies q.node < n
                                            && dist@[q.node as int] is Some
                                            && dist@[q.node as int]->0 <= q.cost && floor
                                            <= q.cost by {
                                            if q != node_entry(v as int, nd) {
                                                assert(old_queue.contains(q));
                                            }
                                        }
                                    }
                                }
                            } else {
                                proof {
                                    lemma_tied(
                                        adj,
                                        w@,
                                        s,
                                        dist@,
                                        prev@,
                                        settled,
                                        u as int,
                                        k as int,
                                        nd,
                                    );
                                    assert(node_ok(
                                        adj,
                                        w@,
                                        s,
                                        dist@,
                                        prev@,
                                        settled,
                                        u as int,
                                        k as int,
                                        v as int,
                                    ));
                                }
                                // Of two equally light ways the one from the
                                // smaller index is kept.
                                let tied = dist[v as usize] == Some(nd);
                                if let Some((p, _j)) = prev[v as usize] {
                                    if tied && u < p {
                                        prev.set(v as usize, Some((u, k)));
                                    }
                                }
                            }
                            k = k + 1;
                        }
                        proof {
                            lemma_settled(
                                adj,
                                w@,
                                s,
                                dist@,
                                prev@,
                                settled,
                                u as int,
                            );
                        }
                    } else {
                        proof {
                            assert(queue_ok(dist@, settled, heap@, floor)) by {
                                assert forall|v: int|
                                    0 <= v < n && (#[trigger] dist@[v]) is Some
                                        && !settled.contains(v) implies heap@.contains(
                                    node_entry(v, dist@[v]->0),
                                ) by {
                                    assert(queue.contains(node_entry(v, dist@[v]->0)));
                                }
                                assert forall|e: Entry| #[trigger] heap@.contains(e) implies e.node
                                    < n && dist@[e.node as int] is Some && dist@[e.node as int]->0
                                    <= e.cost && floor <= e.cost by {
                                    assert(queue.contains(e));
                                }
                            }
                        }
                    }
                },
            }
        }
    }
}

/// A node becomes settled before its steps are looked at.
proof fn lemma_settling(
    adj: Adjacency,
    w: Seq<u64>,
    src: int,
    dist: Seq<Option<u128>>,
    prev: Seq<Option<(u32, usize)>>,
    settled: Set<int>,
    u: int,
)
    requires
        search_ok(adj, w, src, dist, prev, settled, -1, 0),
        0 <= src < adj.len(),
        0 <= u < adj.len(),
        dist[u] is Some,
        !settled.contains(u),
    ensures
        search_ok(adj, w, src, dist, prev, settled.insert(u), u, 0),
{
    let after = settled.insert(u);
    assert forall|x: int| 0 <= x < adj.len() implies #[trigger] node_ok(
        adj,
        w,
        src,
        dist,
        prev,
        after,
        u,
        0,
        x,
    ) by {
        assert(node_ok(adj, w, src, dist, prev, settled, -1, 0, x));
    }
    assert forall|x: int, j: int|
        #![trigger adj[x][j]]
        after.contains(x) && 0 <= j < adj[x].len() && (x != u || j < 0) implies passed(
        adj,
        w,
        dist,
        prev,
        src,
        x,
        j,
    ) by {
        assert(settled.contains(x));
    }
}

/// Once all steps of a node have been looked at.
proof fn lemma_settled(
    adj: Adjacency,
    w: Seq<u64>,
    src: int,
    dist: Seq<Option<u128>>,
    prev: Seq<Option<(u32, usize)>>,
    settled: Set<int>,
    u: int,
)
    requires
        search_ok(adj, w, src, dist, prev, settled, u, adj[u].len() as int),
        0 <= src < adj.len(),
    ensures
        search_ok(adj, w, src, dist, prev, settled, -1, 0),
{
    assert forall|x: int| 0 <= x < adj.len() implies #[trigger] node_ok(
        adj,
        w,
        src,
        dist,
        prev,
        settled,
        -1,
        0,
        x,
    ) by {
        assert(node_ok(adj, w, src, dist, prev, settled, u, adj[u].len() as int, x));
    }
}

// ------------------------------------------------------- laws of routes

/// The weight of a list of edges.
pub open spec fn edges_weight(w: Seq<u64>, edges: Seq<u32>) -> nat
    decreases edges.len(),
{
    if edges.len() == 0 {
        0
    } else {
        edges_weight(w, edges.drop_last()) + w[edges.last() as int] as nat
    }
}

proof fn lemma_distance_home(adj: Adjacency, w: Seq<u64>, src: int)
    ensures
        is_distance(adj, w, src, src, 0),
        distance(adj, w, src, src) == 0,
{
    let none: Seq<int> = Seq::empty();
    assert(walks_to(adj, w, src, src, 0, none));
    lemma_distance_unique(adj, w, src, src, 0);
}

/// The chosen route is a lightest one: its edges weigh as little as any walk.
pub proof fn law_chosen_route_is_lightest(
    adj: Adjacency,
    w: Seq<u64>,
    src: int,
    dst: int,
    route: Seq<(int, int)>,
)
    requires
        is_chosen_route(adj, w, src, dst, route),
    ensures
        edges_weight(w, route_edges(adj, route)) == distance(adj, w, src, dst),
        is_distance(adj, w, src, dst, distance(adj, w, src, dst)),
    decreases route.len(),
{
    let edges = route_edges(adj, route);
    if route.len() == 0 {
        lemma_distance_home(adj, w, src);
    } else {
        let (u, j) = route.last();
        let front = route.drop_last();
        law_chosen_route_is_lightest(adj, w, src, u, front);
        assert(edges.drop_last() =~= route_edges(adj, front));
        assert(edges.last() == adj[u][j].1);
        let d = distance(adj, w, src, u);
        lemma_walk_on(adj, w, src, u, d, j);
        lemma_least_exists(adj, w, src, dst, (d + w[adj[u][j].1 as int]) as nat);
    }
}

/// Where any walk leads, some walk is lightest.
proof fn lemma_least_exists(adj: Adjacency, w: Seq<u64>, src: int, v: int, d: nat)
    requires
        reached(adj, w, src, v, d),
    ensures
        is_distance(adj, w, src, v, distance(adj, w, src, v)),
    decreases d,
{
    if is_distance(adj, w, src, v, d) {
        lemma_distance_unique(adj, w, src, v, d);
    } else {
        let walk = choose|walk: Seq<int>|
            #[trigger] is_walk(adj, src, walk) && walk_end(adj, src, walk) == v && d > walk_weight(
                adj,
                w,
                src,
                walk,
            );
        let less = walk_weight(adj, w, src, walk);
        assert(walks_to(adj, w, src, v, less, walk));
        lemma_least_exists(adj, w, src, v, less);
    }
}

/// Where a route stands before its step `k`, or where it ends.
pub open spec fn route_node(dst: int, route: Seq<(int, int)>, k: int) -> int {
    if k < route.len() {
        route[k].0
    } else {
        dst
    }
}

/// Sub-journeys agree: the chosen route to a station on the way is the beginning
/// of the chosen route to the end.
pub proof fn law_sub_routes_agree(
    adj: Adjacency,
    w: Seq<u64>,
    src: int,
    dst: int,
    route: Seq<(int, int)>,
    k: int,
)
    requires
        is_chosen_route(adj, w, src, dst, route),
        0 <= k <= route.len(),
    ensures
        is_chosen_route(adj, w, src, route_node(dst, route, k), route.take(k)),
    decreases route.len(),
{
    if k == route.len() {
        assert(route.take(k) =~= route);
    } else {
        let (u, j) = route.last();
        let front = route.drop_last();
        law_sub_routes_agree(adj, w, src, u, front, k);
        assert(front.take(k) =~= route.take(k));
        assert(route_node(u, front, k) == route_node(dst, route, k));
    }
}

/// There is one chosen route only.
pub proof fn law_chosen_route_is_unique(
    adj: Adjacency,
    w: Seq<u64>,
    src: int,
    dst: int,
    a: Seq<(int, int)>,
    b: Seq<(int, int)>,
)
    requires
        is_chosen_route(adj, w, src, dst, a),
        is_chosen_route(adj, w, src, dst, b),
    ensures
        a == b,
    decreases a.len(),
{
    if a.len() > 0 {
        let (u, j) = a.last();
        let (x, k) = b.last();
        assert(is_last_step(adj, w, src, dst, u, j));
        assert(is_last_step(adj, w, src, dst, x, k));
        law_chosen_route_is_unique(adj, w, src, u, a.drop_last(), b.drop_last());
        assert(a.drop_last().push(a.last()) =~= a);
        assert(b.drop_last().push(b.last()) =~= b);
    } else {
        assert(a =~= b);
    }
}

// ------------------------------------------------------ numbering edges

/// One numbered edge: its ends, the smaller first, and what is known of it.
pub struct Numbered<M, S> {
    pub u: u32,
    pub v: u32,
    pub metres: M,
    pub secs: S,
}

/// The run time stored at a place of a rail graph, `missing` where there is none.
pub open spec fn secs_at<M, S>(g: NatGraph<M, S>, missing: S, u: int, k: int) -> S {
    if u < g.seconds@.len() && k < g.seconds@[u]@.len() {
        g.seconds@[u]@[k]
    } else {
        missing
    }
}

/// The edges of the first `k` places of row `u`. An edge is stored at both its
/// ends and counts where it leads to the larger index.
pub open spec fn row_edges<M, S>(g: NatGraph<M, S>, missing: S, u: int, k: nat) -> Seq<
    Numbered<M, S>,
>
    decreases k,
{
    if k == 0 {
        Seq::empty()
    } else {
        let rest = row_edges(g, missing, u, (k - 1) as nat);
        let v = g.adjacency@[u]@[k - 1];
        if u < v {
            rest.push(
                Numbered {
                    u: u as u32,
                    v,
                    metres: g.metres@[u]@[k - 1],
                    secs: secs_at(g, missing, u, k - 1),
                },
            )
        } else {
            rest
        }
    }
}

/// The edges of the first `u` rows, numbered by their place in this list.
pub open spec fn numbered_edges<M, S>(g: NatGraph<M, S>, missing: S, u: nat) -> Seq<Numbered<M, S>>
    decreases u,
{
    if u == 0 {
        Seq::empty()
    } else {
        numbered_edges(g, missing, (u - 1) as nat) + row_edges(
            g,
            missing,
            u - 1,
            g.adjacency@[u - 1]@.len(),
        )
    }
}

/// Each of the first `k` edges entered at both its ends.
pub open spec fn wired<M, S>(n: nat, edges: Seq<Numbered<M, S>>, k: nat) -> Adjacency
    decreases k,
{
    if k == 0 {
        Seq::new(n, |u: int| Seq::empty())
    } else {
        let rest = wired(n, edges, (k - 1) as nat);
        let e = edges[k - 1];
        let there = rest.update(e.u as int, rest[e.u as int].push((e.v, (k - 1) as u32)));
        there.update(e.v as int, there[e.v as int].push((e.u, (k - 1) as u32)))
    }
}

/// Whether every edge of a rail graph has a length and leads to a station, and
/// stations and edges can be numbered in 32 bits.
pub open spec fn numberable<M, S>(g: NatGraph<M, S>, missing: S) -> bool {
    &&& g.adjacency@.len() <= u32::MAX
    &&& numbered_edges(g, missing, g.adjacency@.len()).len() <= u32::MAX
    &&& forall|u: int, k: int|
        #![trigger g.adjacency@[u]@[k]]
        0 <= u < g.adjacency@.len() && 0 <= k < g.adjacency@[u]@.len() && u < g.adjacency@[u]@[k]
            ==> g.adjacency@[u]@[k] < g.adjacency@.len() && u < g.metres@.len() && k
            < g.metres@[u]@.len()
}

/// Whether a numbered graph has these edges.
pub open spec fn has_edges<M, S>(g: EdgeGraph<M, S>, edges: Seq<Numbered<M, S>>) -> bool {
    &&& g.metres@ == Seq::new(edges.len(), |i: int| edges[i].metres)
    &&& g.secs@ == Seq::new(edges.len(), |i: int| edges[i].secs)
}

/// Enters one step at a node.
fn add_step(adj: &mut Vec<Vec<(u32, u32)>>, u: u32, step: (u32, u32))
    requires
        u < old(adj)@.len(),
    ensures
        nested(final(adj)@) == nested(old(adj)@).update(
            u as int,
            nested(old(adj)@)[u as int].push(step),
        ),
        final(adj)@.len() == old(adj)@.len(),
{
    let ghost before = adj@;
    let mut row: Vec<(u32, u32)> = Vec::new();
    std::mem::swap(&mut row, &mut adj[u as usize]);
    let ghost kept = row@;
    row.push(step);
    adj.set(u as usize, row);
    assert(nested(adj@) =~= nested(before).update(u as int, kept.push(step)));
}

proof fn lemma_wired_prefix<M, S>(n: nat, a: Seq<Numbered<M, S>>, b: Seq<Numbered<M, S>>, k: nat)
    requires
        k <= a.len(),
        k <= b.len(),
        forall|i: int| 0 <= i < k ==> a[i] == b[i],
    ensures
        wired(n, a, k) == wired(n, b, k),
    decreases k,
{
    if k > 0 {
        lemma_wired_prefix(n, a, b, (k - 1) as nat);
    }
}

proof fn lemma_wired_exists<M, S>(n: nat, edges: Seq<Numbered<M, S>>, k: nat)
    requires
        k <= edges.len() <= u32::MAX,
        forall|i: int| 0 <= i < edges.len() ==> (#[trigger] edges[i]).u < n && edges[i].v < n,
    ensures
        wired(n, edges, k).len() == n,
        forall|u: int, j: int|
            #![trigger wired(n, edges, k)[u][j]]
            0 <= u < n && 0 <= j < wired(n, edges, k)[u].len() ==> wired(n, edges, k)[u][j].0 < n
                && wired(n, edges, k)[u][j].1 < k,
    decreases k,
{
    if k > 0 {
        lemma_wired_exists(n, edges, (k - 1) as nat);
        let e = edges[k - 1];
        let rest = wired(n, edges, (k - 1) as nat);
        let there = rest.update(e.u as int, rest[e.u as int].push((e.v, (k - 1) as u32)));
        let all = wired(n, edges, k);
        assert forall|u: int, j: int|
            #![trigger all[u][j]]
            0 <= u < n && 0 <= j < all[u].len() implies all[u][j].0 < n && all[u][j].1 < k by {
            if u == e.v && j == there[u].len() {
            } else if u == e.u && j == rest[u].len() {
            } else {
                assert(all[u][j] == rest[u][j]);
            }
        }
    }
}

proof fn lemma_row_ends<M, S>(g: NatGraph<M, S>, missing: S, u: int, k: nat)
    requires
        numberable(g, missing),
        0 <= u < g.adjacency@.len(),
        k <= g.adjacency@[u]@.len(),
    ensures
        forall|i: int|
            0 <= i < row_edges(g, missing, u, k).len() ==> (#[trigger] row_edges(
                g,
                missing,
                u,
                k,
            )[i]).u < g.adjacency@.len() && row_edges(g, missing, u, k)[i].v < g.adjacency@.len(),
    decreases k,
{
    if k > 0 {
        lemma_row_ends(g, missing, u, (k - 1) as nat);
        let rest = row_edges(g, missing, u, (k - 1) as nat);
        let all = row_edges(g, missing, u, k);
        assert forall|i: int| 0 <= i < all.len() implies (#[trigger] all[i]).u < g.adjacency@.len()
            && all[i].v < g.adjacency@.len() by {
            if i < rest.len() {
                assert(all[i] == rest[i]);
            } else {
                assert(all[i].v == g.adjacency@[u]@[k - 1]);
            }
        }
    }
}

proof fn lemma_edge_ends<M, S>(g: NatGraph<M, S>, missing: S, w: nat)
    requires
        numberable(g, missing),
        w <= g.adjacency@.len(),
    ensures
        forall|i: int|
            0 <= i < numbered_edges(g, missing, w).len() ==> (#[trigger] numbered_edges(
                g,
                missing,
                w,
            )[i]).u < g.adjacency@.len() && numbered_edges(g, missing, w)[i].v
                < g.adjacency@.len(),
    decreases w,
{
    if w > 0 {
        lemma_edge_ends(g, missing, (w - 1) as nat);
        lemma_row_ends(g, missing, w - 1, g.adjacency@[w - 1]@.len());
        let rest = numbered_edges(g, missing, (w - 1) as nat);
        let row = row_edges(g, missing, w - 1, g.adjacency@[w - 1]@.len());
        let all = numbered_edges(g, missing, w);
        assert forall|i: int| 0 <= i < all.len() implies (#[trigger] all[i]).u < g.adjacency@.len()
            && all[i].v < g.adjacency@.len() by {
            if i < rest.len() {
                assert(all[i] == rest[i]);
            } else {
                assert(all[i] == row[i - rest.len()]);
            }
        }
    }
}

proof fn lemma_edges_grow<M, S>(g: NatGraph<M, S>, missing: S, u: nat, w: nat)
    requires
        u <= w,
    ensures
        numbered_edges(g, missing, u).len() <= numbered_edges(g, missing, w).len(),
    decreases w,
{
    if u < w {
        lemma_edges_grow(g, missing, u, (w - 1) as nat);
    }
}

proof fn lemma_rows_grow<M, S>(g: NatGraph<M, S>, missing: S, u: int, k: nat, m: nat)
    requires
        k <= m,
    ensures
        row_edges(g, missing, u, k).len() <= row_edges(g, missing, u, m).len(),
    decreases m,
{
    if k < m {
        lemma_rows_grow(g, missing, u, k, (m - 1) as nat);
    }
}

impl<M: Copy, S: Copy> EdgeGraph<M, S> {
    /// Numbers the edges of a rail graph. A run time that the graph does not give
    /// counts as `missing`.
    pub fn from(g: &NatGraph<M, S>, missing: S) -> (r: EdgeGraph<M, S>)
        requires
            numberable(*g, missing),
        ensures
            has_edges(r, numbered_edges(*g, missing, g.adjacency@.len())),
            r.steps() == wired(
                g.adjacency@.len(),
                numbered_edges(*g, missing, g.adjacency@.len()),
                numbered_edges(*g, missing, g.adjacency@.len()).len(),
            ),
            forall|e: int|
                0 <= e < r.secs@.len() ==> (#[trigger] r.secs@[e]) == numbered_edges(
                    *g,
                    missing,
                    g.adjacency@.len(),
                )[e].secs && r.metres@[e] == numbered_edges(
                    *g,
                    missing,
                    g.adjacency@.len(),
                )[e].metres,
            r.adj@.len() == g.adjacency@.len(),
            steps_exist(r.steps(), r.secs@.len()),
    {
        let n: usize = g.adjacency.len();
        let ghost all = numbered_edges(*g, missing, n as nat);
        let mut adj: Vec<Vec<(u32, u32)>> = Vec::new();
        while adj.len() < n
            invariant
                adj@.len() <= n,
                forall|u: int| 0 <= u < adj@.len() ==> (#[trigger] adj@[u])@.len() == 0,
            decreases n - adj@.len(),
        {
            adj.push(Vec::new());
        }
        let mut metres: Vec<M> = Vec::new();
        let mut secs: Vec<S> = Vec::new();
        let ghost mut edges: Seq<Numbered<M, S>> = Seq::empty();
        proof {
            assert forall|u: int| 0 <= u < n implies #[trigger] nested(adj@)[u] == Seq::<
                (u32, u32),
            >::empty() by {
                assert(adj@[u]@ =~= Seq::empty());
            }
            assert(nested(adj@) =~= wired(n as nat, edges, 0));
        }
        let mut u: usize = 0;
        while u < n
            invariant
                n == g.adjacency@.len(),
                numberable(*g, missing),
                u <= n,
                adj@.len() == n,
                edges == numbered_edges(*g, missing, u as nat),
                metres@ == Seq::new(edges.len(), |i: int| edges[i].metres),
                secs@ == Seq::new(edges.len(), |i: int| edges[i].secs),
                nested(adj@) == wired(n as nat, edges, edges.len()),
            decreases n - u,
        {
            let ghost base = edges;
            let mut k: usize = 0;
            assert(edges =~= base + row_edges(*g, missing, u as int, 0));
            while k < g.adjacency[u].len()
                invariant
                    n == g.adjacency@.len(),
                    numberable(*g, missing),
                    u < n,
                    k <= g.adjacency@[u as int]@.len(),
                    adj@.len() == n,
                    base == numbered_edges(*g, missing, u as nat),
                    edges == base + row_edges(*g, missing, u as int, k as nat),
                    metres@ == Seq::new(edges.len(), |i: int| edges[i].metres),
                    secs@ == Seq::new(edges.len(), |i: int| edges[i].secs),
                    nested(adj@) == wired(n as nat, edges, edges.len()),
                decreases g.adjacency@[u as int]@.len() - k,
            {
                let v: u32 = g.adjacency[u][k];
                assert(g.adjacency@[u as int]@[k as int] == v);
                if (u as u32) < v {
                    let ghost before = edges;
                    let idx: usize = metres.len();
                    proof {
                        lemma_rows_grow(
                            *g,
                            missing,
                            u as int,
                            (k + 1) as nat,
                            g.adjacency@[u as int]@.len(),
                        );
                        lemma_edges_grow(*g, missing, (u + 1) as nat, n as nat);
                        assert(numbered_edges(*g, missing, (u + 1) as nat) == base + row_edges(
                            *g,
                            missing,
                            u as int,
                            g.adjacency@[u as int]@.len(),
                        ));
                        assert(idx < u32::MAX);
                    }
                    let run: S = if u < g.seconds.len() && k < g.seconds[u].len() {
                        g.seconds[u][k]
                    } else {
                        missing
                    };
                    metres.push(g.metres[u][k]);
                    secs.push(run);
                    add_step(&mut adj, u as u32, (v, idx as u32));
                    add_step(&mut adj, v, (u as u32, idx as u32));
                    proof {
                        let e = Numbered {
                            u: u as u32,
                            v,
                            metres: g.metres@[u as int]@[k as int],
                            secs: run,
                        };
                        edges = before.push(e);
                        assert(edges =~= base + row_edges(
                            *g,
                            missing,
                            u as int,
                            (k + 1) as nat,
                        ));
                        lemma_wired_prefix(n as nat, before, edges, before.len());
                        assert(metres@ =~= Seq::new(edges.len(), |i: int| edges[i].metres));
                        assert(secs@ =~= Seq::new(edges.len(), |i: int| edges[i].secs));
                    }
                }
                k = k + 1;
            }
            u = u + 1;
        }
        let r = EdgeGraph { adj, metres, secs };
        proof {
            assert(edges == all);
            lemma_edge_ends(*g, missing, n as nat);
            lemma_wired_exists(n as nat, edges, edges.len());
        }
        r
    }
}

// --------------------------------------------------------- routes written out

/// A walk written out node by node, with its weight up to each.
proof fn lemma_written_walk(
    adj: Adjacency,
    w: Seq<u64>,
    src: int,
    nodes: Seq<int>,
    steps: Seq<int>,
    sums: Seq<int>,
    k: int,
)
    requires
        0 <= k <= steps.len(),
        nodes.len() == steps.len() + 1,
        sums.len() == steps.len() + 1,
        nodes[0] == src,
        sums[0] == 0,
        forall|i: int|
            0 <= i < steps.len() ==> {
                &&& 0 <= #[trigger] steps[i] < adj[nodes[i]].len()
                &&& adj[nodes[i]][steps[i]].0 == nodes[i + 1]
                &&& sums[i + 1] == sums[i] + w[adj[nodes[i]][steps[i]].1 as int]
            },
    ensures
        is_walk(adj, src, steps.take(k)),
        walk_end(adj, src, steps.take(k)) == nodes[k],
        walk_weight(adj, w, src, steps.take(k)) == sums[k],
    decreases k,
{
    if k > 0 {
        lemma_written_walk(adj, w, src, nodes, steps, sums, k - 1);
        assert(steps.take(k).drop_last() =~= steps.take(k - 1));
        assert(steps.take(k).last() == steps[k - 1]);
    } else {
        assert(steps.take(k) =~= Seq::empty());
    }
}

/// A chosen route leads from its start to its end step by step: its first step is from
/// the start, and every step `i` takes a link to where the next one begins, or to the
/// end.
pub proof fn law_a_route_leads_there(
    adj: Adjacency,
    w: Seq<u64>,
    src: int,
    dst: int,
    route: Seq<(int, int)>,
    i: int,
)
    requires
        is_chosen_route(adj, w, src, dst, route),
        0 <= i < route.len(),
    ensures
        src != dst,
        route[0].0 == src,
        0 <= route[i].0 < adj.len(),
        0 <= route[i].1 < adj[route[i].0].len(),
        i + 1 < route.len() ==> adj[route[i].0][route[i].1].0 == route[i + 1].0,
        i + 1 == route.len() ==> adj[route[i].0][route[i].1].0 == dst,
    decreases route.len(),
{
    let (u, j) = route.last();
    let front = route.drop_last();
    if front.len() == 0 {
        assert(is_chosen_route(adj, w, src, u, front));
        assert(src == u);
        assert(route[0] == (u, j));
    } else {
        let k = if i < front.len() {
            i
        } else {
            i - 1
        };
        law_a_route_leads_there(adj, w, src, u, front, k);
        assert(front[0] == route[0]);
        assert(front[k] == route[k]);
        if k + 1 < front.len() {
            assert(front[k + 1] == route[k + 1]);
        }
    }
}

/// No walk is lighter than the chosen route, and of equally light ones the route comes
/// over the neighbour with the smallest number. A walk is written out: the nodes it
/// calls at, which link it takes from each, and its weight so far. The weight of the
/// route is added up in `total`.
pub proof fn law_no_walk_is_lighter(
    adj: Adjacency,
    w: Seq<u64>,
    src: int,
    dst: int,
    route: Seq<(int, int)>,
    total: Seq<int>,
    nodes: Seq<int>,
    steps: Seq<int>,
    sums: Seq<int>,
)
    requires
        is_chosen_route(adj, w, src, dst, route),
        0 <= src < adj.len(),
        total.len() == route.len() + 1,
        total[0] == 0,
        forall|i: int|
            0 <= i < route.len() ==> #[trigger] total[i + 1] == total[i]
                + w[adj[route[i].0][route[i].1].1 as int],
        nodes.len() == steps.len() + 1,
        sums.len() == steps.len() + 1,
        nodes[0] == src,
        nodes[steps.len() as int] == dst,
        sums[0] == 0,
        forall|i: int| 0 <= i < nodes.len() ==> 0 <= #[trigger] nodes[i] < adj.len(),
        forall|i: int|
            0 <= i < steps.len() ==> {
                &&& 0 <= #[trigger] steps[i] < adj[nodes[i]].len()
                &&& adj[nodes[i]][steps[i]].0 == nodes[i + 1]
                &&& sums[i + 1] == sums[i] + w[adj[nodes[i]][steps[i]].1 as int]
            },
    ensures
        total[route.len() as int] <= sums[steps.len() as int],
        total[route.len() as int] == sums[steps.len() as int] && src != dst ==> {
            let x = nodes[steps.len() - 1];
            let k = steps[steps.len() - 1];
            &&& steps.len() > 0
            &&& route.last().0 < x || (route.last().0 == x && route.last().1 <= k)
        },
{
    let n = steps.len() as int;
    law_chosen_route_is_lightest(adj, w, src, dst, route);
    lemma_written_walk(adj, w, src, nodes, steps, sums, n);
    assert(steps.take(n) =~= steps);
    lemma_written_weight(adj, w, route, total, route.len() as int);
    assert(route.take(route.len() as int) =~= route);
    let d = distance(adj, w, src, dst);
    if total[route.len() as int] == sums[n] && src != dst {
        assert(n > 0);
        let x = nodes[n - 1];
        let k = steps[n - 1];
        let front = steps.take(n - 1);
        lemma_written_walk(adj, w, src, nodes, steps, sums, n - 1);
        let e = adj[x][k].1 as int;
        // The walk up to its last step is lightest too.
        assert(walks_to(adj, w, src, x, sums[n - 1] as nat, front));
        assert(reached(adj, w, src, x, sums[n - 1] as nat));
        lemma_least_exists(adj, w, src, x, sums[n - 1] as nat);
        let best = distance(adj, w, src, x);
        assert(best <= sums[n - 1]);
        lemma_walk_on(adj, w, src, x, best, k);
        let sum = (best + w[e]) as nat;
        assert(reached(adj, w, src, dst, sum));
        let other = choose|walk: Seq<int>| walks_to(adj, w, src, dst, sum, walk);
        assert(d <= best + w[e]);
        assert(sums[n] == sums[n - 1] + w[e]) by {
            assert(steps[n - 1] == k);
        }
        assert(best + w[e] == d);
        assert(is_last_step(adj, w, src, dst, x, k));
    }
}

proof fn lemma_written_weight(
    adj: Adjacency,
    w: Seq<u64>,
    route: Seq<(int, int)>,
    total: Seq<int>,
    k: int,
)
    requires
        0 <= k <= route.len(),
        total.len() == route.len() + 1,
        total[0] == 0,
        forall|i: int|
            0 <= i < route.len() ==> #[trigger] total[i + 1] == total[i]
                + w[adj[route[i].0][route[i].1].1 as int],
    ensures
        edges_weight(w, route_edges(adj, route.take(k))) == total[k],
    decreases k,
{
    let edges = route_edges(adj, route.take(k));
    if k > 0 {
        lemma_written_weight(adj, w, route, total, k - 1);
        assert(edges.drop_last() =~= route_edges(adj, route.take(k - 1)));
        assert(edges.last() == adj[route[k - 1].0][route[k - 1].1].1);
        assert(total[k - 1 + 1] == total[k]);
    }
}

/// Two nodes are connected when some walk, written out, leads from one to the other.
pub proof fn law_connected_means_walkable(
    adj: Adjacency,
    src: int,
    dst: int,
    nodes: Seq<int>,
    steps: Seq<int>,
)
    requires
        nodes.len() == steps.len() + 1,
        nodes[0] == src,
        nodes[steps.len() as int] == dst,
        forall|i: int|
            0 <= i < steps.len() ==> {
                &&& 0 <= #[trigger] steps[i] < adj[nodes[i]].len()
                &&& adj[nodes[i]][steps[i]].0 == nodes[i + 1]
            },
    ensures
        connected(adj, src, dst),
{
    lemma_connected_up_to(adj, src, nodes, steps, steps.len() as int);
    assert(steps.take(steps.len() as int) =~= steps);
    assert(is_walk(adj, src, steps));
}

proof fn lemma_connected_up_to(
    adj: Adjacency,
    src: int,
    nodes: Seq<int>,
    steps: Seq<int>,
    k: int,
)
    requires
        0 <= k <= steps.len(),
        nodes.len() == steps.len() + 1,
        nodes[0] == src,
        forall|i: int|
            0 <= i < steps.len() ==> {
                &&& 0 <= #[trigger] steps[i] < adj[nodes[i]].len()
                &&& adj[nodes[i]][steps[i]].0 == nodes[i + 1]
            },
    ensures
        is_walk(adj, src, steps.take(k)),
        walk_end(adj, src, steps.take(k)) == nodes[k],
    decreases k,
{
    if k > 0 {
        lemma_connected_up_to(adj, src, nodes, steps, k - 1);
        assert(steps.take(k).drop_last() =~= steps.take(k - 1));
        assert(steps.take(k).last() == steps[k - 1]);
    } else {
        assert(steps.take(k) =~= Seq::empty());
    }
}

/// The edges of a graph are numbered station by station, each once, where its other
/// end has the larger number, with its length and its run time; where the graph gives
/// no run time, the missing one stands in.
pub proof fn law_edges_are_numbered_row_by_row<M, S>(g: NatGraph<M, S>, missing: S, u: nat, k: nat)
    requires
        u < g.adjacency@.len(),
        k <= g.adjacency@[u as int]@.len(),
    ensures
        numbered_edges(g, missing, 0).len() == 0,
        numbered_edges(g, missing, u + 1) == numbered_edges(g, missing, u) + row_edges(
            g,
            missing,
            u as int,
            g.adjacency@[u as int]@.len(),
        ),
        row_edges(g, missing, u as int, k) == Seq::new(k, |i: int| i).filter_map(
            |i: int|
                if u < g.adjacency@[u as int]@[i] {
                    Some(
                        Numbered {
                            u: u as u32,
                            v: g.adjacency@[u as int]@[i],
                            metres: g.metres@[u as int]@[i],
                            secs: if u < g.seconds@.len() && i < g.seconds@[u as int]@.len() {
                                g.seconds@[u as int]@[i]
                            } else {
                                missing
                            },
                        },
                    )
                } else {
                    None
                },
        ),
    decreases k,
{
    let all = Seq::new(k, |i: int| i);
    if k > 0 {
        law_edges_are_numbered_row_by_row(g, missing, u, (k - 1) as nat);
        assert(all.drop_last() =~= Seq::new((k - 1) as nat, |i: int| i));
        assert(all.last() == k - 1);
        assert(row_edges(g, missing, u as int, k) =~= Seq::new(k, |i: int| i).filter_map(
            |i: int|
                if u < g.adjacency@[u as int]@[i] {
                    Some(
                        Numbered {
                            u: u as u32,
                            v: g.adjacency@[u as int]@[i],
                            metres: g.metres@[u as int]@[i],
                            secs: if u < g.seconds@.len() && i < g.seconds@[u as int]@.len() {
                                g.seconds@[u as int]@[i]
                            } else {
                                missing
                            },
                        },
                    )
                } else {
                    None
                },
        ));
    } else {
        assert(all =~= Seq::empty());
    }
}

/// A node's steps are the edges that touch it, in the order of their numbers, each with
/// its other end and its number.
pub proof fn law_steps_are_the_numbered_edges<M, S>(
    n: nat,
    edges: Seq<Numbered<M, S>>,
    k: nat,
    u: u32,
)
    requires
        k <= edges.len(),
        u < n,
        forall|i: int|
            0 <= i < edges.len() ==> (#[trigger] edges[i]).u < n && edges[i].v < n && edges[i].u
                != edges[i].v,
    ensures
        wired(n, edges, k).len() == n,
        wired(n, edges, k)[u as int] == Seq::new(k, |i: int| i).filter_map(
            |i: int|
                if edges[i].u == u {
                    Some((edges[i].v, i as u32))
                } else if edges[i].v == u {
                    Some((edges[i].u, i as u32))
                } else {
                    None
                },
        ),
    decreases k,
{
    let all = Seq::new(k, |i: int| i);
    if k > 0 {
        law_steps_are_the_numbered_edges(n, edges, (k - 1) as nat, u);
        assert(all.drop_last() =~= Seq::new((k - 1) as nat, |i: int| i));
        assert(all.last() == k - 1);
        assert(edges[k - 1].u != edges[k - 1].v);
        assert(wired(n, edges, k)[u as int] =~= Seq::new(k, |i: int| i).filter_map(
            |i: int|
                if edges[i].u == u {
                    Some((edges[i].v, i as u32))
                } else if edges[i].v == u {
                    Some((edges[i].u, i as u32))
                } else {
                    None
                },
        ));
    } else {
        assert(all =~= Seq::empty());
    }
}

/// An edge without a run time is taken to need ten minutes.
pub proof fn law_missing_run_times_are_ten_minutes()
    ensures
        MISSING_SECONDS == 10 * 60,
{
}

} // verus!
