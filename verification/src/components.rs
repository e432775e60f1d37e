//! Connected components of the station graph.

use crate::graph::{Graph, GraphModel};
use crate::search::{attainable, is_ride, reachable, ride_end, ride_to, ride_zones};
use crate::seqs::{lemma_distinct_bounded, nested};
use vstd::prelude::*;

verus! {

/// A depth-first walk: the nodes still to be visited, those visited in order,
/// and those noticed so far.
pub struct Walk {
    pub stack: Seq<u32>,
    pub found: Seq<u32>,
    pub seen: Set<int>,
}

/// The walk after looking over the first `j` links of `u`: each neighbour not
/// noticed before is put on the stack.
pub open spec fn noticed(g: GraphModel, w: Walk, u: int, j: nat) -> Walk
    decreases j,
{
    if j == 0 {
        w
    } else {
        let before = noticed(g, w, u, (j - 1) as nat);
        let v = g.links[u][j - 1].0;
        if before.seen.contains(v as int) {
            before
        } else {
            Walk {
                stack: before.stack.push(v),
                found: before.found,
                seen: before.seen.insert(v as int),
            }
        }
    }
}

/// The walk with its topmost node taken off the stack and visited.
pub open spec fn arrived(w: Walk) -> Walk {
    Walk { stack: w.stack.drop_last(), found: w.found.push(w.stack.last()), seen: w.seen }
}

/// The walk one node further.
pub open spec fn walk_on(g: GraphModel, w: Walk) -> Walk {
    let u = w.stack.last() as int;
    noticed(g, arrived(w), u, g.links[u].len())
}

/// The walk from `start` after `k` nodes.
pub open spec fn walk_after(g: GraphModel, start: u32, k: nat) -> Walk
    decreases k,
{
    if k == 0 {
        Walk {
            stack: seq![start],
            found: Seq::empty(),
            seen: Set::<int>::empty().insert(start as int),
        }
    } else {
        walk_on(g, walk_after(g, start, (k - 1) as nat))
    }
}

/// Whether `comp` is what a depth-first walk from its first node visits, in
/// order; it stops after as many nodes as there are in it.
pub open spec fn is_walk(g: GraphModel, comp: Seq<u32>) -> bool {
    &&& comp.len() > 0
    &&& walk_after(g, comp[0], comp.len()).stack.len() == 0
    &&& walk_after(g, comp[0], comp.len()).found == comp
}

/// Whether `comp` lists a connected component: exactly the nodes that can be
/// reached from its first one, which is the smallest, each once and in the order
/// of a depth-first walk.
pub open spec fn is_component(g: GraphModel, comp: Seq<u32>) -> bool {
    &&& is_walk(g, comp)
    &&& comp.no_duplicates()
    &&& forall|i: int| 0 <= i < comp.len() ==> comp[0] <= #[trigger] comp[i] < g.size()
    &&& forall|v: u32| v < g.size() ==> (#[trigger] comp.contains(v) <==> reachable(
        g,
        comp[0] as int,
        v as int,
    ))
}

/// Whether component `a` is listed before component `b`: the larger first, and
/// among equals the one with the smaller first node.
pub open spec fn listed_before(a: Seq<u32>, b: Seq<u32>) -> bool {
    a.len() > b.len() || (a.len() == b.len() && a[0] < b[0])
}

/// Whether one of the listed components holds the node `v`.
pub open spec fn covered(comps: Seq<Seq<u32>>, v: u32) -> bool {
    exists|c: int| 0 <= c < comps.len() && #[trigger] comps[c].contains(v)
}

/// Whether these are the connected components of a graph, largest first.
pub open spec fn is_partition(g: GraphModel, comps: Seq<Seq<u32>>) -> bool {
    &&& forall|c: int| 0 <= c < comps.len() ==> is_component(g, #[trigger] comps[c])
    &&& forall|c: int, d: int|
        #![trigger comps[c], comps[d]]
        0 <= c < d < comps.len() ==> listed_before(comps[c], comps[d])
    &&& forall|v: u32| v < g.size() ==> #[trigger] covered(comps, v)
    &&& forall|c: int, d: int, v: u32|
        0 <= c < d < comps.len() && #[trigger] comps[c].contains(v)
            ==> !#[trigger] comps[d].contains(v)
}

/// Whether every link leads to a node of the graph and back.
pub open spec fn mutual(g: GraphModel) -> bool {
    &&& g.links.len() == g.zones.len()
    &&& forall|u: int, i: int|
        #![trigger g.links[u][i]]
        0 <= u < g.size() && 0 <= i < g.links[u].len() ==> g.links[u][i].0 < g.size()
            && g.links[g.links[u][i].0 as int].contains((u as u32, g.links[u][i].1))
}

/// Whether rows list the neighbours of every node.
spec fn lists_neighbours(g: GraphModel, rows: Seq<Seq<u32>>) -> bool {
    &&& rows.len() == g.size()
    &&& forall|u: int|
        0 <= u < rows.len() ==> #[trigger] rows[u] == Seq::new(
            g.links[u].len(),
            |i: int| g.links[u][i].0,
        )
}

/// What holds of a walk from `start` at any point, `u` and `j` being the node
/// whose links are being looked over and how many of them have been.
spec fn walk_ok(g: GraphModel, start: u32, w: Walk, u: int, j: int) -> bool {
    &&& (w.found + w.stack).no_duplicates()
    &&& forall|v: u32| w.seen.contains(v as int) <==> #[trigger] (w.found + w.stack).contains(v)
    &&& forall|v: int| #[trigger] w.seen.contains(v) ==> 0 <= v < g.size() && reachable(
        g,
        start as int,
        v,
    )
    &&& w.seen.contains(start as int)
    &&& w.found.len() > 0 ==> w.found[0] == start
    &&& w.found.len() == 0 ==> w.stack == seq![start]
    &&& forall|i: int, l: int|
        #![trigger g.links[w.found[i] as int][l]]
        0 <= i < w.found.len() && 0 <= l < g.links[w.found[i] as int].len() && (w.found[i] != u
            || l < j) ==> w.seen.contains(g.links[w.found[i] as int][l].0 as int)
}

proof fn lemma_reachable_start(g: GraphModel, start: int)
    ensures
        reachable(g, start, start),
{
    let none: Seq<int> = Seq::empty();
    assert(ride_to(g, start, start, ride_zones(g, start, none), none));
    assert(attainable(g, start, start, ride_zones(g, start, none)));
}

proof fn lemma_reachable_step(g: GraphModel, start: int, u: int, l: int)
    requires
        reachable(g, start, u),
        0 <= l < g.links[u].len(),
    ensures
        reachable(g, start, g.links[u][l].0 as int),
{
    let zones = choose|zones: u64| attainable(g, start, u, zones);
    crate::search_proof::lemma_attainable_step(g, start, u, zones, l);
}

proof fn lemma_walk_start(g: GraphModel, start: u32)
    requires
        start < g.size(),
    ensures
        walk_ok(g, start, walk_after(g, start, 0), -1, 0),
{
    let w = walk_after(g, start, 0);
    lemma_reachable_start(g, start as int);
    assert(w.found + w.stack =~= seq![start]);
    assert forall|v: u32| w.seen.contains(v as int) <==> #[trigger] (w.found + w.stack).contains(
        v,
    ) by {
        if v == start {
            assert((w.found + w.stack)[0] == v);
        }
    }
}

/// Visiting the topmost node of the stack.
proof fn lemma_walk_arrives(g: GraphModel, start: u32, w: Walk)
    requires
        walk_ok(g, start, w, -1, 0),
        w.stack.len() > 0,
    ensures
        walk_ok(g, start, arrived(w), w.stack.last() as int, 0),
        w.stack.last() < g.size(),
{
    let t = arrived(w);
    let u = w.stack.last();
    let before = w.found + w.stack;
    let after = t.found + t.stack;
    let n = w.found.len();
    let m = w.stack.len();
    assert(before[n + m - 1] == u);
    assert(before.contains(u));
    assert(after.len() == before.len());
    assert forall|i: int| 0 <= i < after.len() implies #[trigger] after[i] == (if i < n {
        before[i]
    } else if i == n {
        before[n + m - 1]
    } else {
        before[i - 1]
    }) by {}
    assert forall|v: u32| #[trigger] after.contains(v) <==> before.contains(v) by {
        if before.contains(v) {
            let i = choose|i: int| 0 <= i < before.len() && before[i] == v;
            if i < n {
                assert(after[i] == v);
            } else if i == n + m - 1 {
                assert(after[n as int] == v);
            } else {
                assert(after[i + 1] == v);
            }
        }
        if after.contains(v) {
            let i = choose|i: int| 0 <= i < after.len() && after[i] == v;
            assert(after[i] == v);
        }
    }
    assert(after.no_duplicates());
    assert forall|i: int, l: int|
        #![trigger g.links[t.found[i] as int][l]]
        0 <= i < t.found.len() && 0 <= l < g.links[t.found[i] as int].len() && (t.found[i] != u
            || l < 0) implies t.seen.contains(g.links[t.found[i] as int][l].0 as int) by {
        assert(i < n);
        assert(t.found[i] == w.found[i]);
        assert(g.links[w.found[i] as int][l] == g.links[t.found[i] as int][l]);
    }
    if w.found.len() == 0 {
        assert(t.found[0] == start);
    }
}

/// Looking over the links of the node just visited.
proof fn lemma_walk_notices(g: GraphModel, start: u32, w: Walk, u: int, j: nat)
    requires
        mutual(g),
        walk_ok(g, start, w, u, 0),
        w.found.len() > 0,
        w.seen.contains(u),
        j <= g.links[u].len(),
    ensures
        walk_ok(g, start, noticed(g, w, u, j), u, j as int),
        noticed(g, w, u, j).found == w.found,
    decreases j,
{
    if j > 0 {
        lemma_walk_notices(g, start, w, u, (j - 1) as nat);
        let p = noticed(g, w, u, (j - 1) as nat);
        let t = noticed(g, w, u, j);
        let v = g.links[u][j - 1].0;
        lemma_reachable_step(g, start as int, u, j - 1);
        let before = p.found + p.stack;
        let after = t.found + t.stack;
        if !p.seen.contains(v as int) {
            assert(after =~= before.push(v));
            assert(!before.contains(v));
            assert forall|x: u32| #[trigger] after.contains(x) <==> before.contains(x) || x == v by {
                if before.contains(x) {
                    let i = choose|i: int| 0 <= i < before.len() && before[i] == x;
                    assert(after[i] == x);
                }
                if x == v {
                    assert(after[before.len() as int] == v);
                }
            }
            assert forall|x: u32| t.seen.contains(x as int) <==> #[trigger] after.contains(x) by {
                assert(p.seen.contains(x as int) <==> before.contains(x));
            }
        }
        assert forall|i: int, l: int|
            #![trigger g.links[t.found[i] as int][l]]
            0 <= i < t.found.len() && 0 <= l < g.links[t.found[i] as int].len() && (t.found[i] != u
                || l < j) implies t.seen.contains(g.links[t.found[i] as int][l].0 as int) by {
            assert(p.found[i] == t.found[i]);
            if t.found[i] == u && l == j - 1 {
            } else {
                assert(p.seen.contains(g.links[p.found[i] as int][l].0 as int));
            }
        }
        assert(walk_ok(g, start, t, u, j as int));
    }
}

/// Once every link of the node just visited has been looked over.
proof fn lemma_walk_settles(g: GraphModel, start: u32, w: Walk, u: int)
    requires
        walk_ok(g, start, w, u, g.links[u].len() as int),
    ensures
        walk_ok(g, start, w, -1, 0),
{
    assert forall|i: int, l: int|
        #![trigger g.links[w.found[i] as int][l]]
        0 <= i < w.found.len() && 0 <= l < g.links[w.found[i] as int].len() implies w.seen.contains(
        g.links[w.found[i] as int][l].0 as int,
    ) by {}
}

/// A finished walk has visited whatever a ride from its start can reach.
proof fn lemma_walk_closed(g: GraphModel, start: u32, w: Walk, ride: Seq<int>)
    requires
        mutual(g),
        start < g.size(),
        walk_ok(g, start, w, -1, 0),
        w.stack.len() == 0,
        is_ride(g, start as int, ride),
    ensures
        w.seen.contains(ride_end(g, start as int, ride)),
    decreases ride.len(),
{
    if ride.len() > 0 {
        let front = ride.drop_last();
        lemma_walk_closed(g, start, w, front);
        let u = ride_end(g, start as int, front);
        assert(w.found + w.stack =~= w.found);
        assert((w.found + w.stack).contains(u as u32));
        let i = choose|i: int| 0 <= i < w.found.len() && w.found[i] == u as u32;
        assert(w.seen.contains(g.links[w.found[i] as int][ride.last()].0 as int));
    }
}

/// A finished walk from the smallest node it visits lists a component.
proof fn lemma_walk_is_component(g: GraphModel, start: u32, w: Walk)
    requires
        mutual(g),
        start < g.size(),
        walk_ok(g, start, w, -1, 0),
        w.stack.len() == 0,
        w == walk_after(g, start, w.found.len()),
        forall|i: int| 0 <= i < w.found.len() ==> start <= #[trigger] w.found[i],
    ensures
        is_component(g, w.found),
        w.found[0] == start,
{
    let comp = w.found;
    assert(w.found + w.stack =~= comp);
    assert(comp.contains(start));
    assert forall|i: int| 0 <= i < comp.len() implies comp[0] <= #[trigger] comp[i] < g.size() by {
        assert(comp.contains(comp[i]));
        assert(w.seen.contains(comp[i] as int));
    }
    assert forall|v: u32| v < g.size() implies (#[trigger] comp.contains(v) <==> reachable(
        g,
        comp[0] as int,
        v as int,
    )) by {
        assert((w.found + w.stack).contains(v) <==> w.seen.contains(v as int));
        if reachable(g, start as int, v as int) {
            let zones = choose|zones: u64| attainable(g, start as int, v as int, zones);
            let ride = choose|ride: Seq<int>| ride_to(g, start as int, v as int, zones, ride);
            lemma_walk_closed(g, start, w, ride);
        }
    }
}

/// A neighbour of a node outside the components listed so far is outside too.
proof fn lemma_neighbour_uncovered(g: GraphModel, comps: Seq<Seq<u32>>, u: u32, l: int)
    requires
        mutual(g),
        g.size() <= u32::MAX,
        forall|c: int| 0 <= c < comps.len() ==> is_component(g, #[trigger] comps[c]),
        u < g.size(),
        !covered(comps, u),
        0 <= l < g.links[u as int].len(),
    ensures
        !covered(comps, g.links[u as int][l].0),
{
    let v = g.links[u as int][l].0;
    if covered(comps, v) {
        let c = choose|c: int| 0 <= c < comps.len() && #[trigger] comps[c].contains(v);
        let comp = comps[c];
        assert(reachable(g, comp[0] as int, v as int));
        let back = (u, g.links[u as int][l].1);
        assert(g.links[v as int].contains(back));
        let j = choose|j: int| 0 <= j < g.links[v as int].len() && g.links[v as int][j] == back;
        lemma_reachable_step(g, comp[0] as int, v as int, j);
        assert(comp.contains(u));
        assert(covered(comps, u));
    }
}

proof fn lemma_reachable_on(g: GraphModel, a: int, b: int, ride: Seq<int>)
    requires
        reachable(g, a, b),
        is_ride(g, b, ride),
    ensures
        reachable(g, a, ride_end(g, b, ride)),
    decreases ride.len(),
{
    if ride.len() > 0 {
        let front = ride.drop_last();
        lemma_reachable_on(g, a, b, front);
        lemma_reachable_step(g, a, ride_end(g, b, front), ride.last());
    }
}

/// Two stations can be reached from one another exactly when the same component
/// lists both.
pub proof fn law_components_decide_reachability(
    g: GraphModel,
    comps: Seq<Seq<u32>>,
    a: u32,
    b: u32,
)
    requires
        g.valid(),
        g.size() <= u32::MAX,
        is_partition(g, comps),
        a < g.size(),
        b < g.size(),
    ensures
        reachable(g, a as int, b as int) <==> exists|c: int|
            0 <= c < comps.len() && #[trigger] comps[c].contains(a) && comps[c].contains(b),
{
    assert(covered(comps, a));
    let c = choose|c: int| 0 <= c < comps.len() && #[trigger] comps[c].contains(a);
    let root = comps[c][0] as int;
    assert(is_component(g, comps[c]));
    assert(reachable(g, root, a as int));
    if reachable(g, a as int, b as int) {
        let zones = choose|zones: u64| attainable(g, a as int, b as int, zones);
        let ride = choose|ride: Seq<int>| ride_to(g, a as int, b as int, zones, ride);
        lemma_reachable_on(g, root, a as int, ride);
        assert(comps[c].contains(b));
    }
    if exists|d: int|
        0 <= d < comps.len() && #[trigger] comps[d].contains(a) && comps[d].contains(b) {
        let d = choose|d: int|
            0 <= d < comps.len() && #[trigger] comps[d].contains(a) && comps[d].contains(b);
        assert(is_component(g, comps[d]));
        let top = comps[d][0] as int;
        let zones = choose|zones: u64| attainable(g, top, a as int, zones);
        crate::search_laws::lemma_attainable_back(g, top, a as int, zones);
        assert(reachable(g, a as int, top));
        let down = choose|zones: u64| attainable(g, top, b as int, zones);
        let ride = choose|ride: Seq<int>| ride_to(g, top, b as int, down, ride);
        lemma_reachable_on(g, a as int, top, ride);
    }
}

/// The nodes that can be reached from `start`, in the order of a depth-first
/// walk. `seen` marks the nodes of other components and is brought up to date.
fn component_from(
    rows: &Vec<Vec<u32>>,
    start: u32,
    seen: &mut Vec<bool>,
    model: Ghost<GraphModel>,
    comps: Ghost<Seq<Seq<u32>>>,
) -> (comp: Vec<u32>)
    requires
        mutual(model@),
        model@.size() <= u32::MAX,
        lists_neighbours(model@, nested(rows@)),
        start < model@.size(),
        old(seen)@.len() == model@.size(),
        forall|c: int| 0 <= c < comps@.len() ==> is_component(model@, #[trigger] comps@[c]),
        forall|v: u32|
            v < model@.size() ==> (#[trigger] old(seen)@[v as int] <==> covered(comps@, v)),
        forall|v: u32| v < start ==> #[trigger] covered(comps@, v),
        !covered(comps@, start),
    ensures
        is_component(model@, comp@),
        comp@[0] == start,
        final(seen)@.len() == model@.size(),
        forall|v: u32| #[trigger] comp@.contains(v) ==> !covered(comps@, v),
        forall|v: u32|
            v < model@.size() ==> (#[trigger] final(seen)@[v as int] <==> covered(comps@, v)
                || comp@.contains(v)),
{
    let n: usize = rows.len();
    let ghost g = model@;
    let mut stack: Vec<u32> = Vec::new();
    stack.push(start);
    let mut comp: Vec<u32> = Vec::new();
    seen.set(start as usize, true);
    let ghost mut w = walk_after(g, start, 0);
    proof {
        lemma_walk_start(g, start);
        assert(stack@ =~= w.stack);
        assert(comp@ =~= w.found);
    }
    while stack.len() > 0
        invariant
            g == model@,
            lists_neighbours(g, nested(rows@)),
            n == g.size(),
            mutual(g),
            n <= u32::MAX,
            start < n,
            seen@.len() == n,
            stack@ == w.stack,
            comp@ == w.found,
            w == walk_after(g, start, comp@.len()),
            walk_ok(g, start, w, -1, 0),
            forall|c: int| 0 <= c < comps@.len() ==> is_component(g, #[trigger] comps@[c]),
            forall|v: u32| v < start ==> #[trigger] covered(comps@, v),
            forall|v: u32|
                v < n ==> (#[trigger] seen@[v as int] <==> covered(comps@, v)
                    || w.seen.contains(v as int)),
            forall|v: u32| #[trigger] w.seen.contains(v as int) ==> !covered(comps@, v),
        decreases n - comp@.len(),
    {
        let ghost w0 = w;
        proof {
            let all = w.found + w.stack;
            assert forall|i: int| 0 <= i < all.len() implies #[trigger] all[i] < n by {
                assert(all.contains(all[i]));
                assert(w.seen.contains(all[i] as int));
            }
            lemma_distinct_bounded(all, n as nat);
        }
        match stack.pop() {
            None => {},
            Some(u) => {
                comp.push(u);
                proof {
                    lemma_walk_arrives(g, start, w0);
                    w = arrived(w0);
                    assert(stack@ =~= w.stack);
                    assert(comp@ =~= w.found);
                    let all = w0.found + w0.stack;
                    assert(all[all.len() - 1] == u);
                    assert(all.contains(u));
                }
                let links = &rows[u as usize];
                assert(nested(rows@)[u as int] == links@);
                let mut j: usize = 0;
                while j < links.len()
                    invariant
                        g == model@,
            lists_neighbours(g, nested(rows@)),
                        n == g.size(),
                        mutual(g),
                        n <= u32::MAX,
                        start < n,
                        u < n,
                        seen@.len() == n,
                        links@.len() == g.links[u as int].len(),
                        forall|i: int|
                            0 <= i < links@.len() ==> #[trigger] links@[i]
                                == g.links[u as int][i].0,
                        j <= links@.len(),
                        walk_ok(g, start, arrived(w0), u as int, 0),
                        arrived(w0).found.len() > 0,
                        w0.seen.contains(u as int),
                        w == noticed(g, arrived(w0), u as int, j as nat),
                        stack@ == w.stack,
                        comp@ == w.found,
                        forall|c: int|
                            0 <= c < comps@.len() ==> is_component(g, #[trigger] comps@[c]),
                        !covered(comps@, u),
                        forall|v: u32|
                            v < n ==> (#[trigger] seen@[v as int] <==> covered(comps@, v)
                                || w.seen.contains(v as int)),
                        forall|v: u32| #[trigger]
                            w.seen.contains(v as int) ==> !covered(comps@, v),
                    decreases links@.len() - j,
                {
                    let v: u32 = links[j];
                    proof {
                        assert(g.links[u as int][j as int].0 == v);
                        assert(v < n);
                        lemma_neighbour_uncovered(g, comps@, u, j as int);
                        lemma_walk_notices(g, start, arrived(w0), u as int, j as nat);
                    }
                    if !seen[v as usize] {
                        seen.set(v as usize, true);
                        stack.push(v);
                    }
                    proof {
                        w = noticed(g, arrived(w0), u as int, (j + 1) as nat);
                        assert(stack@ =~= w.stack);
                    }
                    j = j + 1;
                }
                proof {
                    lemma_walk_notices(g, start, arrived(w0), u as int, j as nat);
                    lemma_walk_settles(g, start, w, u as int);
                    assert(w == walk_on(g, w0));
                }
            },
        }
    }
    proof {
        assert(w.found + w.stack =~= comp@);
        assert forall|i: int| 0 <= i < comp@.len() implies start <= #[trigger] comp@[i] by {
            assert((w.found + w.stack).contains(comp@[i]));
            assert(w.seen.contains(comp@[i] as int));
        }
        lemma_walk_is_component(g, start, w);
        assert forall|v: u32| #[trigger] comp@.contains(v) <==> w.seen.contains(v as int) by {
            assert((w.found + w.stack).contains(v) <==> w.seen.contains(v as int));
        }
    }
    comp
}

/// The connected components of a graph, given the neighbours of each node.
fn parts(rows: &Vec<Vec<u32>>, model: Ghost<GraphModel>) -> (r: Vec<Vec<u32>>)
    requires
        mutual(model@),
        model@.size() <= u32::MAX,
        lists_neighbours(model@, nested(rows@)),
    ensures
        is_partition(model@, nested(r@)),
{
    let n: usize = rows.len();
    let ghost g = model@;
    let mut seen: Vec<bool> = Vec::new();
    while seen.len() < n
        invariant
            seen@.len() <= n,
            forall|v: int| 0 <= v < seen@.len() ==> !#[trigger] seen@[v],
        decreases n - seen@.len(),
    {
        seen.push(false);
    }
    let mut out: Vec<Vec<u32>> = Vec::new();
    let mut start: u32 = 0;
    while (start as usize) < n
        invariant
            g == model@,
            lists_neighbours(g, nested(rows@)),
            n == g.size(),
            mutual(g),
            n <= u32::MAX,
            start <= n,
            seen@.len() == n,
            forall|c: int| 0 <= c < out@.len() ==> is_component(g, #[trigger] nested(out@)[c]),
            forall|c: int| 0 <= c < out@.len() ==> (#[trigger] nested(out@)[c])[0] < start,
            forall|c: int, d: int|
                #![trigger nested(out@)[c], nested(out@)[d]]
                0 <= c < d < out@.len() ==> listed_before(nested(out@)[c], nested(out@)[d]),
            forall|c: int, d: int, v: u32|
                0 <= c < d < out@.len() && #[trigger] nested(out@)[c].contains(v)
                    ==> !#[trigger] nested(out@)[d].contains(v),
            forall|v: u32| v < start ==> #[trigger] covered(nested(out@), v),
            forall|v: u32|
                v < n ==> (#[trigger] seen@[v as int] <==> covered(nested(out@), v)),
        decreases n - start,
    {
        if !seen[start as usize] {
            let ghost before = nested(out@);
            let comp = component_from(rows, start, &mut seen, Ghost(g), Ghost(before));
            // Behind every component that is at least as large.
            let mut pos: usize = out.len();
            while pos > 0 && out[pos - 1].len() < comp.len()
                invariant
                    pos <= out@.len(),
                    nested(out@) == before,
                    forall|c: int, d: int|
                        #![trigger before[c], before[d]]
                        0 <= c < d < before.len() ==> listed_before(before[c], before[d]),
                    forall|c: int|
                        pos <= c < before.len() ==> (#[trigger] before[c]).len() < comp@.len(),
                decreases pos,
            {
                assert(before[pos - 1] == out@[pos - 1]@);
                pos = pos - 1;
            }
            let ghost c0 = comp@;
            out.insert(pos, comp);
            proof {
                let after = nested(out@);
                assert(after =~= before.insert(pos as int, c0));
                lemma_inserted(g, before, c0, pos as int);
            }
        } else {
            assert(covered(nested(out@), start));
        }
        start = start + 1;
    }
    out
}

impl Graph {
    /// Connected components as node-index lists, largest first.
    pub fn components(&self) -> (r: Vec<Vec<u32>>)
        ensures
            is_partition(self@, nested(r@)),
    {
        let n: usize = self.node_count();
        let ghost g = self@;
        let mut rows: Vec<Vec<u32>> = Vec::new();
        while rows.len() < n
            invariant
                g == self@,
                n == g.size(),
                n <= u32::MAX,
                g.valid(),
                rows@.len() <= n,
                forall|u: int|
                    0 <= u < rows@.len() ==> (#[trigger] rows@[u])@ == Seq::new(
                        g.links[u].len(),
                        |i: int| g.links[u][i].0,
                    ),
            decreases n - rows@.len(),
        {
            let links = self.neighbours(rows.len() as u32);
            let mut row: Vec<u32> = Vec::new();
            let mut i: usize = 0;
            while i < links.len()
                invariant
                    i <= links@.len(),
                    row@ == links@.take(i as int),
                decreases links@.len() - i,
            {
                row.push(links[i]);
                assert(row@ =~= links@.take(i + 1));
                i = i + 1;
            }
            assert(row@ =~= links@);
            rows.push(row);
        }
        parts(&rows, Ghost(g))
    }
}

/// The graph that rows of neighbours make, with no zones to cross.
pub open spec fn row_graph(rows: Seq<Seq<u32>>) -> GraphModel {
    GraphModel {
        zones: Seq::new(rows.len(), |u: int| 0u8),
        links: Seq::new(
            rows.len(),
            |u: int| Seq::new(rows[u].len(), |i: int| (rows[u][i], 0u64)),
        ),
    }
}

/// Whether every neighbour of a node lists that node in turn.
pub open spec fn rows_mutual(rows: Seq<Seq<u32>>) -> bool {
    forall|u: int, i: int|
        #![trigger rows[u][i]]
        0 <= u < rows.len() && 0 <= i < rows[u].len() ==> rows[u][i] < rows.len()
            && rows[rows[u][i] as int].contains(u as u32)
}

/// The connected components of rows of neighbours, largest first.
pub fn row_components(rows: &Vec<Vec<u32>>) -> (r: Vec<Vec<u32>>)
    requires
        rows@.len() <= u32::MAX,
        rows_mutual(nested(rows@)),
    ensures
        is_partition(row_graph(nested(rows@)), nested(r@)),
{
    let ghost all = nested(rows@);
    let ghost g = row_graph(all);
    proof {
        assert forall|u: int, i: int|
            #![trigger g.links[u][i]]
            0 <= u < g.size() && 0 <= i < g.links[u].len() implies g.links[u][i].0 < g.size()
            && g.links[g.links[u][i].0 as int].contains((u as u32, g.links[u][i].1)) by {
            let v = all[u][i] as int;
            assert(all[v].contains(u as u32));
            let j = choose|j: int| 0 <= j < all[v].len() && all[v][j] == u as u32;
            assert(g.links[v][j] == (u as u32, 0u64));
        }
        assert forall|u: int| 0 <= u < all.len() implies #[trigger] all[u] == Seq::new(
            g.links[u].len(),
            |i: int| g.links[u][i].0,
        ) by {
            assert(all[u] =~= Seq::new(g.links[u].len(), |i: int| g.links[u][i].0));
        }
    }
    parts(rows, Ghost(g))
}

proof fn lemma_inserted(g: GraphModel, before: Seq<Seq<u32>>, comp: Seq<u32>, pos: int)
    requires
        0 <= pos <= before.len(),
        forall|c: int| 0 <= c < before.len() ==> is_component(g, #[trigger] before[c]),
        is_component(g, comp),
        forall|c: int| 0 <= c < before.len() ==> (#[trigger] before[c])[0] < comp[0],
        forall|c: int, d: int|
            #![trigger before[c], before[d]]
            0 <= c < d < before.len() ==> listed_before(before[c], before[d]),
        forall|c: int, d: int, v: u32|
            0 <= c < d < before.len() && #[trigger] before[c].contains(v)
                ==> !#[trigger] before[d].contains(v),
        pos > 0 ==> before[pos - 1].len() >= comp.len(),
        forall|c: int| pos <= c < before.len() ==> (#[trigger] before[c]).len() < comp.len(),
        forall|v: u32| #[trigger] comp.contains(v) ==> !covered(before, v),
    ensures
        ({
            let after = before.insert(pos, comp);
            &&& forall|c: int| 0 <= c < after.len() ==> is_component(g, #[trigger] after[c])
            &&& forall|c: int| 0 <= c < after.len() ==> (#[trigger] after[c])[0] <= comp[0]
            &&& forall|c: int, d: int|
                #![trigger after[c], after[d]]
                0 <= c < d < after.len() ==> listed_before(after[c], after[d])
            &&& forall|c: int, d: int, v: u32|
                0 <= c < d < after.len() && #[trigger] after[c].contains(v)
                    ==> !#[trigger] after[d].contains(v)
            &&& forall|v: u32|
                #[trigger] covered(after, v) <==> covered(before, v) || comp.contains(v)
        }),
{
    let after = before.insert(pos, comp);
    assert forall|c: int| 0 <= c < after.len() implies #[trigger] after[c] == (if c < pos {
        before[c]
    } else if c == pos {
        comp
    } else {
        before[c - 1]
    }) by {}
    assert forall|c: int, d: int|
        #![trigger after[c], after[d]]
        0 <= c < d < after.len() implies listed_before(after[c], after[d]) by {
        if d == pos && c < pos - 1 {
            assert(listed_before(before[c], before[pos - 1]));
        }
    }
    assert forall|v: u32| #[trigger] covered(after, v) <==> covered(before, v) || comp.contains(
        v,
    ) by {
        if covered(before, v) {
            let c = choose|c: int| 0 <= c < before.len() && #[trigger] before[c].contains(v);
            if c < pos {
                assert(after[c].contains(v));
            } else {
                assert(after[c + 1].contains(v));
            }
        }
        if comp.contains(v) {
            assert(after[pos].contains(v));
        }
        if covered(after, v) {
            let c = choose|c: int| 0 <= c < after.len() && #[trigger] after[c].contains(v);
            if c < pos {
                assert(before[c].contains(v));
            } else if c > pos {
                assert(before[c - 1].contains(v));
            }
        }
    }
    assert forall|c: int, d: int, v: u32|
        0 <= c < d < after.len() && #[trigger] after[c].contains(v) implies !#[trigger] after[d]
        .contains(v) by {
        if c == pos {
            if after[d].contains(v) {
                assert(before[d - 1].contains(v));
                assert(covered(before, v));
            }
        } else if d == pos {
            assert(before[c].contains(v));
            assert(covered(before, v));
        } else {
            let c1 = if c < pos {
                c
            } else {
                c - 1
            };
            let d1 = if d < pos {
                d
            } else {
                d - 1
            };
            assert(before[c1].contains(v));
            if after[d].contains(v) {
                assert(before[d1].contains(v));
            }
        }
    }
}

/// Components come largest first, and of equally large ones that with the smallest
/// station first; each begins with its smallest station and lists none twice.
pub proof fn law_components_come_largest_first(
    g: GraphModel,
    comps: Seq<Seq<u32>>,
    c: int,
    d: int,
    i: int,
)
    requires
        is_partition(g, comps),
        0 <= c < d < comps.len(),
        0 <= i < comps[c].len(),
    ensures
        comps[c].len() >= comps[d].len(),
        comps[c].len() == comps[d].len() ==> comps[c][0] < comps[d][0],
        comps[c][0] <= comps[c][i] < g.size(),
        comps[c].no_duplicates(),
        comps[c].len() > 0 && comps[d].len() > 0,
{
    assert(listed_before(comps[c], comps[d]));
    assert(is_component(g, comps[c]));
    assert(is_component(g, comps[d]));
}

/// Every node is in exactly one component.
pub proof fn law_every_node_is_in_one_component(g: GraphModel, comps: Seq<Seq<u32>>, v: u32) -> (c:
    int)
    requires
        is_partition(g, comps),
        v < g.size(),
    ensures
        0 <= c < comps.len(),
        comps[c].contains(v),
        forall|d: int| 0 <= d < comps.len() && #[trigger] comps[d].contains(v) ==> d == c,
{
    assert(covered(comps, v));
    choose|c: int| 0 <= c < comps.len() && #[trigger] comps[c].contains(v)
}

} // verus!
