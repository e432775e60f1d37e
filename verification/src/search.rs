//! Multi-label shortest-path search over zone sets.
//!
//! ## Why not plain Dijkstra
//!
//! The tariff charges for the *set* of distinct zones a journey covers, each
//! counted once. That makes the cost of the remaining path depend on which zones
//! have already been paid for, so the label that looks cheapest on arrival at a
//! node is not always the one that extends best:
//!
//! - `P1` reaches `v` with `{A,B,C}`, weight 3
//! - `P2` reaches `v` with `{A,D}`, weight 2
//!
//! Plain Dijkstra keeps `P2`. But if the rest of the route runs through B and C,
//! `P2` finishes at `{A,D,B,C}` = 4 while the discarded `P1` finishes at
//! `{A,B,C}` = 3. Collapsing to one label per node loses the optimum.
//!
//! So the search keeps a Pareto frontier per node and prunes only genuine
//! dominance: `L1` dominates `L2` when `set(L1)` is a subset of `set(L2)`, since
//! a subset can never cost more now nor constrain the future more.

use crate::bits::{bit_set, mask_subset};
use crate::graph::{Graph, GraphModel};
use crate::heap::{entry_le, Entry, MinHeap};
use crate::search_proof::{
    coverage, entry_ok, frontier_ok, lemma_attainable_facts, lemma_attainable_start,
    lemma_attainable_step, lemma_dequeue, lemma_extend, lemma_finished, lemma_first_unique,
    lemma_hops_fit, lemma_initial, lemma_queued_remove, lemma_slack_nonneg, lemma_turn_done,
    next_done, phase_ok, queued_at, room, setting_ok, slack, state_ok, visits, hop_total,
};
use crate::zoneset::{billed, indexed, ZoneIndex, ZoneSet};
use vstd::multiset::Multiset;
use vstd::prelude::*;

verus! {

/// Maximum Pareto labels retained per station.
///
/// The frontier can grow exponentially in general. On the Zürich network, over
/// 1,269,600 station pairs, a cap of 16 overcharges fifteen of them by one zone
/// while 32 is already exact; 64 leaves a margin of two.
pub const LABEL_CAP: usize = 64;

/// One way of having reached a station: the zones paid for, and the number of
/// stations on the way, the first one included. Counted in 64 bits, no search is too
/// large for it.
#[derive(Clone, Copy, Debug, PartialEq, Eq, Structural)]
pub struct Label {
    pub set: ZoneSet,
    pub hops: u64,
}

/// Outcome of one origin's search.
#[derive(Debug, Clone)]
pub struct SearchResult {
    /// Minimum zone weight per station; `None` where unreachable.
    pub weights: Vec<Option<u32>>,
    /// The zone set achieving that minimum, for inspection and debugging.
    pub best_sets: Vec<Option<ZoneSet>>,
    /// Surviving label count per station, for the diagnostics in `validate`.
    pub label_counts: Vec<usize>,
    /// How many times the label cap forced a truncation during this run.
    pub cap_hits: u64,
}

// ---------------------------------------------------------------- rides

/// The node a ride from `source` ends at. A ride is the sequence of links taken,
/// each by its position among the links of the node it leaves from.
pub open spec fn ride_end(g: GraphModel, source: int, ride: Seq<int>) -> int
    decreases ride.len(),
{
    if ride.len() == 0 {
        source
    } else {
        g.links[ride_end(g, source, ride.drop_last())][ride.last()].0 as int
    }
}

/// Whether every link of the ride exists.
pub open spec fn is_ride(g: GraphModel, source: int, ride: Seq<int>) -> bool
    decreases ride.len(),
{
    ride.len() == 0 || {
        &&& is_ride(g, source, ride.drop_last())
        &&& 0 <= ride.last() < g.links[ride_end(g, source, ride.drop_last())].len()
    }
}

/// The zones a ride covers: the one it starts in and those its links traverse.
pub open spec fn ride_zones(g: GraphModel, source: int, ride: Seq<int>) -> u64
    decreases ride.len(),
{
    if ride.len() == 0 {
        1u64 << g.zones[source]
    } else {
        ride_zones(g, source, ride.drop_last()) | g.links[ride_end(
            g,
            source,
            ride.drop_last(),
        )][ride.last()].1
    }
}

/// Whether a ride from `source` to `node` covers exactly these zones.
pub open spec fn ride_to(
    g: GraphModel,
    source: int,
    node: int,
    zones: u64,
    ride: Seq<int>,
) -> bool {
    &&& is_ride(g, source, ride)
    &&& ride_end(g, source, ride) == node
    &&& ride_zones(g, source, ride) == zones
}

/// Whether some ride from `source` to `node` covers exactly these zones.
pub open spec fn attainable(g: GraphModel, source: int, node: int, zones: u64) -> bool {
    exists|ride: Seq<int>| ride_to(g, source, node, zones, ride)
}

/// Whether any ride leads from `source` to `node`.
pub open spec fn reachable(g: GraphModel, source: int, node: int) -> bool {
    exists|zones: u64| attainable(g, source, node, zones)
}

/// Whether no ride to `node` covers strictly fewer zones.
pub open spec fn pareto_optimal(g: GraphModel, source: int, node: int, zones: u64) -> bool {
    &&& attainable(g, source, node, zones)
    &&& forall|other: u64|
        attainable(g, source, node, other) && mask_subset(other, zones) ==> other == zones
}

/// The zone sets of rides to `node` that no other ride's zone set is a proper
/// subset of.
pub open spec fn pareto_front(g: GraphModel, source: int, node: int) -> Set<u64> {
    Set::new(|zones: u64| pareto_optimal(g, source, node, zones))
}

/// Whether every zone that a ride from `source` can cover is in the zone index.
pub open spec fn rides_indexed(g: GraphModel, numbers: Seq<u32>, source: int) -> bool {
    forall|ride: Seq<int>|
        #[trigger] is_ride(g, source, ride) ==> indexed(
            numbers,
            bit_set(ride_zones(g, source, ride)),
        )
}

// ------------------------------------------------------ the search itself

/// What a label's zones are billed as.
pub open spec fn label_cost(numbers: Seq<u32>, l: Label) -> nat {
    billed(numbers, l.set@)
}

/// Whether `a` sorts no later than `b`: by weight, then by hops.
pub open spec fn label_le(numbers: Seq<u32>, a: Label, b: Label) -> bool {
    label_cost(numbers, a) < label_cost(numbers, b) || (label_cost(numbers, a) == label_cost(
        numbers,
        b,
    ) && a.hops <= b.hops)
}

/// `l` put into a sorted frontier behind everything that sorts no later.
pub open spec fn insert_label(numbers: Seq<u32>, s: Seq<Label>, l: Label) -> Seq<Label>
    decreases s.len(),
{
    if s.len() == 0 || label_le(numbers, s.last(), l) {
        s.push(l)
    } else {
        insert_label(numbers, s.drop_last(), l).push(s.last())
    }
}

/// A frontier sorted by weight, then by hops, ties in their old order.
pub open spec fn sort_labels(numbers: Seq<u32>, s: Seq<Label>) -> Seq<Label>
    decreases s.len(),
{
    if s.len() == 0 {
        s
    } else {
        insert_label(numbers, sort_labels(numbers, s.drop_last()), s.last())
    }
}

/// Where a search stands: the frontier of every node, the labels still to be
/// extended, and how often a frontier was truncated.
pub struct SearchState {
    pub labels: Seq<Seq<Label>>,
    pub queue: Multiset<Entry>,
    pub hits: nat,
}

/// The queue entry of a label: by weight, then hops, node and set.
pub open spec fn entry_of(numbers: Seq<u32>, node: int, l: Label) -> Entry {
    Entry {
        cost: label_cost(numbers, l) as u128,
        hops: l.hops,
        node: node as u64,
        tag: l.set.0,
    }
}

/// The label of a queue entry.
pub open spec fn label_of(e: Entry) -> Label {
    Label { set: ZoneSet(e.tag), hops: e.hops }
}

/// Whether some label of the frontier pays for no zone beyond `set`.
pub open spec fn dominated(frontier: Seq<Label>, set: ZoneSet) -> bool {
    exists|i: int| 0 <= i < frontier.len() && mask_subset((#[trigger] frontier[i]).set.0, set.0)
}

/// The labels of a frontier that a new zone set does not dominate.
pub open spec fn undominated(frontier: Seq<Label>, set: ZoneSet) -> Seq<Label>
    decreases frontier.len(),
{
    if frontier.len() == 0 {
        frontier
    } else {
        let rest = undominated(frontier.drop_last(), set);
        if mask_subset(set.0, frontier.last().set.0) {
            rest
        } else {
            rest.push(frontier.last())
        }
    }
}

/// The frontier after `cand` arrived, with at most `cap` labels.
pub open spec fn truncated(numbers: Seq<u32>, kept: Seq<Label>, cap: nat) -> Seq<Label> {
    if kept.len() > cap {
        sort_labels(numbers, kept).take(cap as int)
    } else {
        kept
    }
}

/// Offers the label `cand` to a node.
pub open spec fn relax(
    numbers: Seq<u32>,
    cap: nat,
    s: SearchState,
    node: int,
    cand: Label,
) -> SearchState {
    if dominated(s.labels[node], cand.set) {
        s
    } else {
        let kept = undominated(s.labels[node], cand.set).push(cand);
        let next = truncated(numbers, kept, cap);
        SearchState {
            labels: s.labels.update(node, next),
            queue: if next.contains(cand) {
                s.queue.insert(entry_of(numbers, node, cand))
            } else {
                s.queue
            },
            hits: if kept.len() > cap {
                s.hits + 1
            } else {
                s.hits
            },
        }
    }
}

/// The label that arrives over a link.
pub open spec fn extended(e: Entry, link: (u32, u64)) -> Label {
    Label { set: ZoneSet(e.tag | link.1), hops: (e.hops + 1) as u64 }
}

/// Extends a label over the first `j` links of its node.
pub open spec fn relax_links(
    g: GraphModel,
    numbers: Seq<u32>,
    cap: nat,
    s: SearchState,
    e: Entry,
    j: nat,
) -> SearchState
    decreases j,
{
    if j == 0 {
        s
    } else {
        let link = g.links[e.node as int][j - 1];
        relax(
            numbers,
            cap,
            relax_links(g, numbers, cap, s, e, (j - 1) as nat),
            link.0 as int,
            extended(e, link),
        )
    }
}

/// Whether `e` is the entry that comes out of the queue next.
pub open spec fn is_first(queue: Multiset<Entry>, e: Entry) -> bool {
    queue.contains(e) && forall|x: Entry| #[trigger] queue.contains(x) ==> entry_le(e, x)
}

/// Whether a queued label is still on its node's frontier.
pub open spec fn is_live(s: SearchState, e: Entry) -> bool {
    s.labels[e.node as int].contains(label_of(e))
}

/// The state with the entry `e` taken out of the queue.
pub open spec fn dequeued(s: SearchState, e: Entry) -> SearchState {
    SearchState { labels: s.labels, queue: s.queue.remove(e), hits: s.hits }
}

/// One turn of the search: the first entry leaves the queue and, unless its
/// label has been pruned meanwhile, is extended over every link of its node.
pub open spec fn advanced(
    g: GraphModel,
    numbers: Seq<u32>,
    cap: nat,
    s: SearchState,
) -> SearchState {
    if s.queue.len() == 0 {
        s
    } else {
        let e = choose|e: Entry| is_first(s.queue, e);
        let rest = dequeued(s, e);
        if is_live(rest, e) {
            relax_links(g, numbers, cap, rest, e, g.links[e.node as int].len())
        } else {
            rest
        }
    }
}

/// The label a search starts from.
pub open spec fn start_label(g: GraphModel, source: int) -> Label {
    Label { set: ZoneSet(1u64 << g.zones[source]), hops: 1 }
}

/// Where a search starts.
pub open spec fn initial_state(g: GraphModel, numbers: Seq<u32>, source: int) -> SearchState {
    SearchState {
        labels: Seq::new(
            g.size(),
            |v: int|
                if v == source {
                    seq![start_label(g, source)]
                } else {
                    Seq::empty()
                },
        ),
        queue: Multiset::empty().insert(entry_of(numbers, source, start_label(g, source))),
        hits: 0,
    }
}

/// Where a search stands after `k` turns.
pub open spec fn state_after(
    g: GraphModel,
    numbers: Seq<u32>,
    source: int,
    cap: nat,
    k: nat,
) -> SearchState
    decreases k,
{
    if k == 0 {
        initial_state(g, numbers, source)
    } else {
        advanced(g, numbers, cap, state_after(g, numbers, source, cap, (k - 1) as nat))
    }
}

/// Whether label `i` is the cheapest of a frontier, the first one among equals.
pub open spec fn first_cheapest(numbers: Seq<u32>, frontier: Seq<Label>, i: int) -> bool {
    &&& 0 <= i < frontier.len()
    &&& forall|j: int|
        0 <= j < frontier.len() ==> label_cost(numbers, frontier[i]) <= label_cost(
            numbers,
            #[trigger] frontier[j],
        )
    &&& forall|j: int|
        0 <= j < i ==> label_cost(numbers, frontier[i]) < label_cost(
            numbers,
            #[trigger] frontier[j],
        )
}

/// What is reported of one frontier.
pub open spec fn reports(
    numbers: Seq<u32>,
    frontier: Seq<Label>,
    weight: Option<u32>,
    best: Option<ZoneSet>,
) -> bool {
    if frontier.len() == 0 {
        weight is None && best is None
    } else {
        exists|i: int|
            {
                &&& #[trigger] first_cheapest(numbers, frontier, i)
                &&& weight is Some && weight->0 == label_cost(numbers, frontier[i])
                &&& best == Some(frontier[i].set)
            }
    }
}

/// Whether `r` reports a final state, node by node.
pub open spec fn summarises(numbers: Seq<u32>, s: SearchState, r: SearchResult) -> bool {
    &&& r.weights@.len() == s.labels.len()
    &&& r.best_sets@.len() == s.labels.len()
    &&& r.label_counts@.len() == s.labels.len()
    &&& forall|v: int|
        0 <= v < s.labels.len() ==> #[trigger] reports(
            numbers,
            s.labels[v],
            r.weights@[v],
            r.best_sets@[v],
        )
    &&& forall|v: int|
        0 <= v < s.labels.len() ==> #[trigger] r.label_counts@[v] == s.labels[v].len()
    &&& r.cap_hits == if s.hits <= u64::MAX {
        s.hits
    } else {
        u64::MAX as nat
    }
}

// --------------------------------------------------- what a result means

/// Every reported weight is what some ride to that station is billed, and that
/// ride's zones are the ones reported; where nothing is reported there is no
/// label.
pub open spec fn weights_attained(
    g: GraphModel,
    numbers: Seq<u32>,
    source: int,
    r: SearchResult,
) -> bool {
    forall|v: int|
        0 <= v < g.size() ==> match #[trigger] r.best_sets@[v] {
            Some(set) => {
                &&& attainable(g, source, v, set.0)
                &&& r.weights@[v] is Some
                &&& r.weights@[v]->0 == billed(numbers, set@)
                &&& r.label_counts@[v] > 0
            },
            None => r.weights@[v] is None && r.label_counts@[v] == 0,
        }
}

/// No ride to a station is billed less than the weight reported there.
pub open spec fn weights_optimal(
    g: GraphModel,
    numbers: Seq<u32>,
    source: int,
    r: SearchResult,
) -> bool {
    forall|v: int, zones: u64|
        0 <= v < g.size() && #[trigger] attainable(g, source, v, zones) ==> {
            &&& r.weights@[v] is Some
            &&& r.weights@[v]->0 <= billed(numbers, bit_set(zones))
        }
}

/// As many labels survive at a station as there are Pareto-optimal zone sets.
pub open spec fn frontiers_complete(g: GraphModel, source: int, r: SearchResult) -> bool {
    forall|v: int|
        0 <= v < g.size() ==> #[trigger] r.label_counts@[v] == pareto_front(g, source, v).len()
}

/// Whether `r` is what the search from `source` ends with.
pub open spec fn is_outcome(
    g: GraphModel,
    numbers: Seq<u32>,
    source: int,
    cap: nat,
    r: SearchResult,
) -> bool {
    exists|k: nat|
        {
            &&& (#[trigger] state_after(g, numbers, source, cap, k)).queue.len() == 0
            &&& summarises(numbers, state_after(g, numbers, source, cap, k), r)
        }
}

/// What a search of a graph under a cap reports: the outcome of its run, weights
/// that rides attain, one for every station in reach, no more labels than the cap
/// allows, and, where nothing was truncated, optimal weights and full frontiers.
/// Without a cap nothing is ever truncated.
pub open spec fn searched(
    g: GraphModel,
    numbers: Seq<u32>,
    source: int,
    cap: usize,
    r: SearchResult,
) -> bool {
    &&& is_outcome(g, numbers, source, cap as nat, r)
    &&& weights_attained(g, numbers, source, r)
    &&& r.weights@.len() == g.size()
    &&& r.best_sets@.len() == g.size()
    &&& r.label_counts@.len() == g.size()
    &&& cap > 0 ==> forall|v: int|
        0 <= v < g.size() ==> ((#[trigger] r.weights@[v]) is Some <==> reachable(g, source, v))
    &&& forall|v: int|
        0 <= v < g.size() ==> #[trigger] r.label_counts@[v] <= if cap == 0 {
            1
        } else {
            cap
        }
    &&& r.cap_hits == 0 ==> weights_optimal(g, numbers, source, r)
    &&& r.cap_hits == 0 ==> frontiers_complete(g, source, r)
    &&& cap == usize::MAX ==> r.cap_hits == 0
}

// ------------------------------------------------------------- execution

/// The frontiers of all nodes.
spec fn frontiers(labels: Seq<Vec<Label>>) -> Seq<Seq<Label>> {
    Seq::new(labels.len(), |v: int| labels[v]@)
}

fn is_dominated(frontier: &Vec<Label>, set: ZoneSet) -> (r: bool)
    ensures
        r == dominated(frontier@, set),
{
    let mut i: usize = 0;
    while i < frontier.len()
        invariant
            i <= frontier@.len(),
            forall|j: int| 0 <= j < i ==> !mask_subset((#[trigger] frontier@[j]).set.0, set.0),
        decreases frontier@.len() - i,
    {
        if frontier[i].set.is_subset_of(set) {
            assert(mask_subset(frontier@[i as int].set.0, set.0));
            return true;
        }
        i = i + 1;
    }
    false
}

/// The labels that `set` does not dominate.
fn prune(frontier: &Vec<Label>, set: ZoneSet) -> (r: Vec<Label>)
    ensures
        r@ == undominated(frontier@, set),
{
    let mut out: Vec<Label> = Vec::new();
    let mut i: usize = 0;
    while i < frontier.len()
        invariant
            i <= frontier@.len(),
            out@ == undominated(frontier@.take(i as int), set),
        decreases frontier@.len() - i,
    {
        assert(frontier@.take(i + 1).drop_last() =~= frontier@.take(i as int));
        if !set.is_subset_of(frontier[i].set) {
            out.push(frontier[i]);
        }
        i = i + 1;
    }
    assert(frontier@.take(i as int) =~= frontier@);
    out
}

proof fn lemma_insert_at(numbers: Seq<u32>, s: Seq<Label>, l: Label, pos: int)
    requires
        0 <= pos <= s.len(),
        pos == 0 || label_le(numbers, s[pos - 1], l),
        forall|i: int| pos <= i < s.len() ==> !label_le(numbers, #[trigger] s[i], l),
    ensures
        insert_label(numbers, s, l) == s.insert(pos, l),
    decreases s.len(),
{
    if pos == s.len() {
        assert(s.insert(pos, l) =~= s.push(l));
    } else {
        let front = s.drop_last();
        lemma_insert_at(numbers, front, l, pos);
        assert(!label_le(numbers, s[s.len() - 1], l));
        assert(front.insert(pos, l).push(s.last()) =~= s.insert(pos, l));
    }
}

/// Sorts a frontier by weight, then by hops, ties in their old order.
fn sort_frontier(zones: &ZoneIndex, frontier: &Vec<Label>) -> (r: Vec<Label>)
    requires
        forall|i: int| 0 <= i < frontier@.len() ==> indexed(zones@, (#[trigger] frontier@[i]).set@),
    ensures
        r@ == sort_labels(zones@, frontier@),
{
    let mut out: Vec<Label> = Vec::new();
    let mut i: usize = 0;
    while i < frontier.len()
        invariant
            i <= frontier@.len(),
            forall|j: int|
                0 <= j < frontier@.len() ==> indexed(zones@, (#[trigger] frontier@[j]).set@),
            out@ == sort_labels(zones@, frontier@.take(i as int)),
            forall|j: int| 0 <= j < out@.len() ==> indexed(zones@, (#[trigger] out@[j]).set@),
        decreases frontier@.len() - i,
    {
        let l = frontier[i];
        let w: u32 = zones.weight(l.set);
        let mut pos: usize = out.len();
        let ghost before = out@;
        while pos > 0
            invariant
                out@ == before,
                pos <= out@.len(),
                indexed(zones@, l.set@),
                w == label_cost(zones@, l),
                forall|j: int| 0 <= j < out@.len() ==> indexed(zones@, (#[trigger] out@[j]).set@),
                forall|j: int| pos <= j < out@.len() ==> !label_le(zones@, #[trigger] out@[j], l),
            ensures
                out@ == before,
                pos <= out@.len(),
                pos == 0 || label_le(zones@, out@[pos - 1], l),
                forall|j: int| pos <= j < out@.len() ==> !label_le(zones@, #[trigger] out@[j], l),
            decreases pos,
        {
            let other = out[pos - 1];
            let ow: u32 = zones.weight(other.set);
            if ow < w || (ow == w && other.hops <= l.hops) {
                break;
            }
            pos = pos - 1;
        }
        proof {
            lemma_insert_at(zones@, before, l, pos as int);
            assert(frontier@.take(i + 1).drop_last() =~= frontier@.take(i as int));
        }
        out.insert(pos, l);
        i = i + 1;
    }
    assert(frontier@.take(i as int) =~= frontier@);
    out
}

fn has_label(frontier: &Vec<Label>, l: Label) -> (r: bool)
    ensures
        r == frontier@.contains(l),
{
    let mut i: usize = 0;
    while i < frontier.len()
        invariant
            i <= frontier@.len(),
            forall|j: int| 0 <= j < i ==> frontier@[j] != l,
        decreases frontier@.len() - i,
    {
        if frontier[i] == l {
            return true;
        }
        i = i + 1;
    }
    false
}

/// Offers a label to a node; says whether the frontier had to be truncated.
fn offer(
    zones: &ZoneIndex,
    cap: usize,
    labels: &mut Vec<Vec<Label>>,
    heap: &mut MinHeap,
    v: u32,
    cand: Label,
    s: Ghost<SearchState>,
) -> (hit: bool)
    requires
        v < old(labels)@.len(),
        v < s@.labels.len(),
        old(heap).wf(),
        frontiers(old(labels)@) == s@.labels,
        old(heap)@ == s@.queue,
        indexed(zones@, cand.set@),
        forall|i: int|
            0 <= i < s@.labels[v as int].len() ==> indexed(
                zones@,
                (#[trigger] s@.labels[v as int][i]).set@,
            ),
    ensures
        final(heap).wf(),
        final(labels)@.len() == old(labels)@.len(),
        hit ==> cap < usize::MAX,
        ({
            let t = relax(zones@, cap as nat, s@, v as int, cand);
            &&& frontiers(final(labels)@) == t.labels
            &&& final(heap)@ == t.queue
            &&& t.hits == s@.hits + if hit {
                1int
            } else {
                0
            }
        }),
{
    let ghost before = labels@;
    assert(frontiers(before)[v as int] == before[v as int]@);
    // Dominated by something already there? Subset, so no worse future.
    if is_dominated(&labels[v as usize], cand.set) {
        return false;
    }
    // Drop whatever `cand` now dominates.
    let mut kept: Vec<Label> = prune(&labels[v as usize], cand.set);
    proof {
        crate::frontier::lemma_undominated_members(before[v as int]@, cand.set);
        assert forall|i: int| 0 <= i < kept@.len() implies indexed(
            zones@,
            (#[trigger] kept@[i]).set@,
        ) by {
            assert(kept@.contains(kept@[i]));
            let k = choose|k: int| 0 <= k < before[v as int]@.len() && before[v as int]@[k]
                == kept@[i];
            assert(s@.labels[v as int][k] == kept@[i]);
        }
    }
    kept.push(cand);
    let ghost all = kept@;
    let mut hit = false;
    if kept.len() > cap {
        hit = true;
        kept = sort_frontier(zones, &kept);
        proof {
            crate::frontier::lemma_sort_members(zones@, all);
        }
        kept.truncate(cap);
        assert(kept@ =~= sort_labels(zones@, all).take(cap as int));
    }
    assert(kept@ == truncated(zones@, all, cap as nat));
    let queued = has_label(&kept, cand);
    labels.set(v as usize, kept);
    assert(frontiers(labels@) =~= frontiers(before).update(v as int, labels@[v as int]@));
    // A label that was truncated away is not extended.
    if queued {
        let w: u32 = zones.weight(cand.set);
        heap.push(
            Entry { cost: w as u128, hops: cand.hops, node: v as u64, tag: cand.set.0 },
        );
    }
    hit
}

/// The cheapest label of a frontier, the first one among equals.
fn cheapest(zones: &ZoneIndex, frontier: &Vec<Label>) -> (r: usize)
    requires
        frontier@.len() > 0,
        forall|i: int| 0 <= i < frontier@.len() ==> indexed(zones@, (#[trigger] frontier@[i]).set@),
    ensures
        first_cheapest(zones@, frontier@, r as int),
{
    let mut best: usize = 0;
    let mut least: u32 = zones.weight(frontier[0].set);
    let mut i: usize = 1;
    while i < frontier.len()
        invariant
            best < i <= frontier@.len(),
            least == label_cost(zones@, frontier@[best as int]),
            forall|j: int|
                0 <= j < frontier@.len() ==> indexed(zones@, (#[trigger] frontier@[j]).set@),
            forall|j: int| 0 <= j < i ==> least <= label_cost(zones@, #[trigger] frontier@[j]),
            forall|j: int| 0 <= j < best ==> least < label_cost(zones@, #[trigger] frontier@[j]),
        decreases frontier@.len() - i,
    {
        let w: u32 = zones.weight(frontier[i].set);
        if w < least {
            least = w;
            best = i;
        }
        i = i + 1;
    }
    best
}

/// Reports the frontiers that a finished search is left with.
fn summary(
    graph: &Graph,
    zones: &ZoneIndex,
    source: u32,
    cap: usize,
    labels: &Vec<Vec<Label>>,
    cap_hits: u64,
    s: Ghost<SearchState>,
) -> (r: SearchResult)
    requires
        setting_ok(graph@, zones@, source as int),
        state_ok(graph@, zones@, source as int, cap as nat, s@),
        coverage(graph@, zones@, cap as nat, s@, -1, start_label(graph@, source as int), 0),
        s@.queue.len() == 0,
        frontiers(labels@) == s@.labels,
        cap_hits == if s@.hits <= u64::MAX {
            s@.hits
        } else {
            u64::MAX as nat
        },
    ensures
        summarises(zones@, s@, r),
        weights_attained(graph@, zones@, source as int, r),
        cap > 0 ==> forall|v: int|
            0 <= v < graph@.size() ==> ((#[trigger] r.weights@[v]) is Some <==> reachable(
                graph@,
                source as int,
                v,
            )),
        forall|v: int|
            0 <= v < graph@.size() ==> #[trigger] r.label_counts@[v] <= room(cap as nat),
        r.cap_hits == 0 ==> weights_optimal(graph@, zones@, source as int, r),
        r.cap_hits == 0 ==> frontiers_complete(graph@, source as int, r),
{
    let ghost g = graph@;
    let ghost numbers = zones@;
    let ghost src = source as int;
    let mut weights: Vec<Option<u32>> = Vec::new();
    let mut best_sets: Vec<Option<ZoneSet>> = Vec::new();
    let mut label_counts: Vec<usize> = Vec::new();
    let mut v: usize = 0;
    while v < labels.len()
        invariant
            g == graph@,
            numbers == zones@,
            src == source as int,
            setting_ok(g, numbers, src),
            state_ok(g, numbers, src, cap as nat, s@),
            frontiers(labels@) == s@.labels,
            v <= labels@.len(),
            labels@.len() == g.size(),
            weights@.len() == v,
            best_sets@.len() == v,
            label_counts@.len() == v,
            forall|x: int|
                0 <= x < v ==> #[trigger] reports(
                    numbers,
                    s@.labels[x],
                    weights@[x],
                    best_sets@[x],
                ),
            forall|x: int| 0 <= x < v ==> #[trigger] label_counts@[x] == s@.labels[x].len(),
        decreases labels@.len() - v,
    {
        let ghost frontier = s@.labels[v as int];
        assert(frontier == labels@[v as int]@);
        label_counts.push(labels[v].len());
        if labels[v].len() == 0 {
            weights.push(None);
            best_sets.push(None);
        } else {
            proof {
                assert(frontier_ok(g, src, cap as nat, v as int, frontier));
                assert forall|i: int| 0 <= i < frontier.len() implies indexed(
                    numbers,
                    (#[trigger] frontier[i]).set@,
                ) by {
                    lemma_attainable_facts(g, numbers, src, v as int, frontier[i].set.0);
                }
            }
            let i: usize = cheapest(zones, &labels[v]);
            let set = labels[v][i].set;
            weights.push(Some(zones.weight(set)));
            best_sets.push(Some(set));
            assert(first_cheapest(numbers, frontier, i as int));
        }
        assert(reports(numbers, frontier, weights@[v as int], best_sets@[v as int]));
        v = v + 1;
    }
    let r = SearchResult { weights, best_sets, label_counts, cap_hits };
    proof {
        assert forall|x: int| 0 <= x < g.size() implies r.label_counts@[x] <= room(cap as nat)
            && (match #[trigger] r.best_sets@[x] {
            Some(set) => {
                &&& attainable(g, src, x, set.0)
                &&& r.weights@[x] is Some
                &&& r.weights@[x]->0 == billed(numbers, set@)
                &&& r.label_counts@[x] > 0
            },
            None => r.weights@[x] is None && r.label_counts@[x] == 0,
        }) by {
            let frontier = s@.labels[x];
            assert(frontier_ok(g, src, cap as nat, x, frontier));
            assert(reports(numbers, frontier, r.weights@[x], r.best_sets@[x]));
        }
        assert forall|x: int| 0 <= x < g.size() && cap > 0 implies ((#[trigger] r.weights@[x])
            is Some <==> reachable(g, src, x)) by {
            lemma_finished(g, numbers, src, cap as nat, s@, x);
            assert(reports(numbers, s@.labels[x], r.weights@[x], r.best_sets@[x]));
        }
        assert forall|x: int| 0 <= x < g.size() implies #[trigger] r.label_counts@[x] <= room(
            cap as nat,
        ) by {
            let _ = r.best_sets@[x];
        }
        if r.cap_hits == 0 {
            assert forall|x: int, z: u64|
                0 <= x < g.size() && #[trigger] attainable(g, src, x, z) implies ({
                &&& r.weights@[x] is Some
                &&& r.weights@[x]->0 <= billed(numbers, bit_set(z))
            }) by {
                lemma_finished(g, numbers, src, cap as nat, s@, x);
                let frontier = s@.labels[x];
                assert(reports(numbers, frontier, r.weights@[x], r.best_sets@[x]));
                let j = choose|j: int|
                    0 <= j < frontier.len() && mask_subset((#[trigger] frontier[j]).set.0, z);
                crate::bits::lemma_subset_bits(frontier[j].set.0, z);
                crate::zoneset::law_subset_never_costs_more(
                    numbers,
                    frontier[j].set@,
                    bit_set(z),
                    Set::empty(),
                );
            }
            assert forall|x: int| 0 <= x < g.size() implies #[trigger] r.label_counts@[x]
                == pareto_front(g, src, x).len() by {
                lemma_finished(g, numbers, src, cap as nat, s@, x);
            }
        }
    }
    r
}

/// Minimum zone weight from `source` to every station, using [`LABEL_CAP`].
pub fn search(graph: &Graph, zones: &ZoneIndex, source: u32) -> (r: SearchResult)
    requires
        source < graph@.size(),
        graph@.zones[source as int] < 64,
        rides_indexed(graph@, zones@, source as int),
    ensures
        searched(graph@, zones@, source as int, LABEL_CAP, r),
{
    search_capped(graph, zones, source, LABEL_CAP)
}

/// The labels of the first `k` stations together.
pub open spec fn label_sum(counts: Seq<usize>, k: nat) -> nat
    decreases k,
{
    if k == 0 {
        0
    } else {
        label_sum(counts, (k - 1) as nat) + counts[k - 1] as nat
    }
}

/// How many of the first `k` stations have a label.
pub open spec fn reached_count(counts: Seq<usize>, k: nat) -> nat
    decreases k,
{
    if k == 0 {
        0
    } else {
        reached_count(counts, (k - 1) as nat) + if counts[k - 1] > 0 {
            1nat
        } else {
            0
        }
    }
}

/// A mean number of labels as an exact fraction: all labels, and the stations they
/// are at. The mean over no stations counts as zero.
#[derive(Clone, Copy, Debug, PartialEq, Eq, Structural)]
pub struct LabelMean {
    pub labels: u128,
    pub stations: usize,
}

impl SearchResult {
    /// The mean number of labels over the stations that have any.
    pub fn mean_labels(&self) -> (r: LabelMean)
        ensures
            r.labels == label_sum(self.label_counts@, self.label_counts@.len()),
            r.stations == reached_count(self.label_counts@, self.label_counts@.len()),
    {
        let mut labels: u128 = 0;
        let mut stations: usize = 0;
        let mut v: usize = 0;
        while v < self.label_counts.len()
            invariant
                v <= self.label_counts@.len(),
                stations <= v,
                labels <= v * usize::MAX,
                labels == label_sum(self.label_counts@, v as nat),
                stations == reached_count(self.label_counts@, v as nat),
            decreases self.label_counts@.len() - v,
        {
            let count: usize = self.label_counts[v];
            assert(v * usize::MAX + count <= (v + 1) * usize::MAX <= u128::MAX) by (nonlinear_arith)
                requires
                    0 <= v < usize::MAX,
                    0 <= count <= usize::MAX,
                    usize::MAX <= 0xffff_ffff_ffff_ffff,
            ;
            labels = labels + count as u128;
            if count > 0 {
                stations = stations + 1;
            }
            v = v + 1;
        }
        LabelMean { labels, stations }
    }
}

impl SearchResult {
    /// The largest frontier, 0 where there are no stations.
    pub fn max_labels(&self) -> (r: usize)
        ensures
            forall|v: int| 0 <= v < self.label_counts@.len() ==> #[trigger] self.label_counts@[v] <= r,
            self.label_counts@.len() == 0 ==> r == 0,
            self.label_counts@.len() > 0 ==> self.label_counts@.contains(r),
    {
        let mut most: usize = 0;
        let mut v: usize = 0;
        while v < self.label_counts.len()
            invariant
                v <= self.label_counts@.len(),
                forall|x: int| 0 <= x < v ==> #[trigger] self.label_counts@[x] <= most,
                v == 0 ==> most == 0,
                v > 0 ==> self.label_counts@.contains(most),
            decreases self.label_counts@.len() - v,
        {
            if self.label_counts[v] > most || v == 0 {
                most = self.label_counts[v];
                assert(self.label_counts@[v as int] == most);
            }
            v = v + 1;
        }
        most
    }
}

/// As [`search`], with an explicit frontier cap. `usize::MAX` runs the search
/// uncapped, which is how `validate` measures whether the cap distorts results.
///
/// Every weight is billed for a real ride, so a cap can only overcharge; with no
/// truncation the weights are the least possible. Hops are counted in 32 bits,
/// which bounds the size of the network.
#[verifier::rlimit(50)]
pub fn search_capped(graph: &Graph, zones: &ZoneIndex, source: u32, cap: usize) -> (r:
    SearchResult)
    requires
        source < graph@.size(),
        graph@.zones[source as int] < 64,
        rides_indexed(graph@, zones@, source as int),
    ensures
        searched(graph@, zones@, source as int, cap, r),
{
    let n: usize = graph.node_count();
    let nz: usize = zones.len();
    let ghost g = graph@;
    let ghost numbers = zones@;
    let ghost src = source as int;
    let ghost c = cap as nat;
    assert(setting_ok(g, numbers, src));
    let mut labels: Vec<Vec<Label>> = Vec::new();
    while labels.len() < n
        invariant
            labels@.len() <= n,
            forall|v: int| 0 <= v < labels@.len() ==> (#[trigger] labels@[v])@.len() == 0,
        decreases n - labels@.len(),
    {
        labels.push(Vec::new());
    }
    let mut cap_hits: u64 = 0;

    let start_set = ZoneSet::single(graph.zone_of(source));
    let start = Label { set: start_set, hops: 1 };
    let mut first: Vec<Label> = Vec::new();
    first.push(start);
    labels.set(source as usize, first);
    let mut heap = MinHeap::new();
    proof {
        lemma_initial(g, numbers, src, c);
        lemma_attainable_start(g, src);
        lemma_attainable_facts(g, numbers, src, src, start_set.0);
    }
    let start_weight: u32 = zones.weight(start_set);
    heap.push(
        Entry { cost: start_weight as u128, hops: 1, node: source as u64, tag: start_set.0 },
    );

    let ghost mut s = initial_state(g, numbers, src);
    let ghost mut turns: nat = 0;
    let ghost mut fc: nat = 0;
    let ghost mut fh: nat = 0;
    let ghost mut done: Set<(int, u64)> = Set::empty();
    proof {
        assert(frontiers(labels@) =~= s.labels) by {
            assert forall|v: int| 0 <= v < n implies frontiers(labels@)[v] == s.labels[v] by {
                if v == src {
                    assert(labels@[v]@ =~= seq![start]);
                } else {
                    assert(labels@[v]@ =~= Seq::empty());
                }
            }
        }
        lemma_slack_nonneg(g, numbers, src, c, s, fc, g.size());
    }

    loop
        invariant
            g == graph@,
            numbers == zones@,
            src == source as int,
            c == cap as nat,
            n == g.size(),
            setting_ok(g, numbers, src),
            labels@.len() == n,
            heap.wf(),
            frontiers(labels@) == s.labels,
            heap@ == s.queue,
            s == state_after(g, numbers, src, c, turns),
            state_ok(g, numbers, src, c, s),
            coverage(g, numbers, c, s, -1, start_label(g, src), 0),
            phase_ok(g, numbers, s, fc, fh, done),
            fc <= 2 * numbers.len(),
            slack(numbers, s.labels, fc, room(c), g.size()) >= 0,
            cap == usize::MAX ==> cap_hits == 0,
            cap_hits == if s.hits <= u64::MAX {
                s.hits
            } else {
                u64::MAX as nat
            },
        ensures
            s.queue.len() == 0,
        decreases
                2 * numbers.len() - fc,
                slack(numbers, s.labels, fc, room(c), g.size()),
                hop_total(numbers, s.labels, fc, g.size()),
                queued_at(s.queue, fc),
    {
        match heap.pop() {
            None => {
                break;
            },
            Some(entry) => {
                let ghost s0 = s;
                let ghost rest = dequeued(s0, entry);
                let ghost after = next_done(s0, entry, fc, done);
                let ghost old_fc = fc;
                proof {
                    assert(is_first(s0.queue, entry));
                    let e = choose|e: Entry| is_first(s0.queue, e);
                    lemma_first_unique(s0.queue, entry, e);
                    assert(s0.queue.len() != 0) by {
                        broadcast use vstd::multiset::group_multiset_axioms;

                    }
                    assert(coverage(g, numbers, c, s0, -1, label_of(entry), 0));
                    lemma_dequeue(g, numbers, src, c, s0, entry, fc, fh, done);
                    lemma_queued_remove(s0.queue, entry);
                    lemma_hops_fit(g, numbers, src, entry, after);
                    assert(entry_ok(g, numbers, src, entry));
                }
                let u: u32 = entry.node as u32;
                let cur = Label { set: ZoneSet(entry.tag), hops: entry.hops };
                assert(cur == label_of(entry));
                assert(s0.labels[u as int] == labels@[u as int]@);
                // Skip labels that were pruned from the frontier after being queued.
                if has_label(&labels[u as usize], cur) {
                    let links: Vec<(u32, u64)> = graph.edges_from(u);
                    let mut j: usize = 0;
                    proof {
                        s = rest;
                    }
                    while j < links.len()
                        invariant
                            g == graph@,
                            numbers == zones@,
                            src == source as int,
                            c == cap as nat,
                            n == g.size(),
                            setting_ok(g, numbers, src),
                            entry_ok(g, numbers, src, entry),
                            entry.hops < u64::MAX,
                            u == entry.node,
                            cur == label_of(entry),
                            links@ == g.links[u as int],
                            j <= links@.len(),
                            labels@.len() == n,
                            heap.wf(),
                            frontiers(labels@) == s.labels,
                            heap@ == s.queue,
                            s == relax_links(g, numbers, c, rest, entry, j as nat),
                            state_ok(g, numbers, src, c, rest),
                            coverage(g, numbers, c, rest, u as int, cur, 0),
                            phase_ok(
                                g,
                                numbers,
                                rest,
                                entry.cost as nat,
                                entry.hops as nat,
                                after,
                            ),
                            entry.hops <= g.size() * entry.cost + visits(after, entry.tag),
                            cap == usize::MAX ==> cap_hits == 0,
                            cap_hits == if s.hits <= u64::MAX {
                                s.hits
                            } else {
                                u64::MAX as nat
                            },
                        decreases links@.len() - j,
                    {
                        let (v, traversed) = links[j];
                        let cand = Label {
                            set: cur.set.union(ZoneSet(traversed)),
                            hops: cur.hops + 1,
                        };
                        proof {
                            assert(g.links[u as int][j as int].0 < g.size());
                            assert(cand == extended(entry, links@[j as int]));
                            lemma_extend(g, numbers, src, c, rest, entry, after, j as nat);
                            lemma_attainable_step(g, src, u as int, entry.tag, j as int);
                            lemma_attainable_facts(g, numbers, src, v as int, cand.set.0);
                            assert(frontier_ok(g, src, c, v as int, s.labels[v as int]));
                            assert forall|i: int| 0 <= i < s.labels[v as int].len() implies indexed(
                                numbers,
                                (#[trigger] s.labels[v as int][i]).set@,
                            ) by {
                                lemma_attainable_facts(
                                    g,
                                    numbers,
                                    src,
                                    v as int,
                                    s.labels[v as int][i].set.0,
                                );
                            }
                        }
                        let hit = offer(
                            zones,
                            cap,
                            &mut labels,
                            &mut heap,
                            v,
                            cand,
                            Ghost(s),
                        );
                        if hit {
                            cap_hits = cap_hits.saturating_add(1);
                        }
                        proof {
                            s = relax(numbers, c, s, v as int, cand);
                        }
                        j = j + 1;
                    }
                    proof {
                        lemma_extend(g, numbers, src, c, rest, entry, after, j as nat);
                        lemma_turn_done(
                            g,
                            numbers,
                            c,
                            s,
                            u as int,
                            cur,
                            j as int,
                            start_label(g, src),
                        );
                    }
                } else {
                    proof {
                        s = rest;
                        lemma_turn_done(
                            g,
                            numbers,
                            c,
                            s,
                            u as int,
                            cur,
                            0,
                            start_label(g, src),
                        );
                    }
                }
                proof {
                    turns = turns + 1;
                    fc = entry.cost as nat;
                    fh = entry.hops as nat;
                    done = after;
                    lemma_slack_nonneg(g, numbers, src, c, s, fc, g.size());
                    assert(s == state_after(g, numbers, src, c, turns));
                }
            },
        }
    }
    summary(graph, zones, source, cap, &labels, cap_hits, Ghost(s))
}

} // verus!
