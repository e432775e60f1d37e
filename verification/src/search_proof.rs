//! Why the search is right: what every turn keeps, why it ends, and what holds
//! when the queue has run dry.

use crate::bits::{bit_set, lemma_subset_bits, lemma_subset_order, mask_subset};
use crate::frontier::{
    antichain, arrival, arrival_ok, cheap_count, cheap_hops, incomparable, label_indexed,
    lemma_arrival, lemma_arrival_keeps, lemma_arrival_sums, lemma_cheap_count_bound,
    lemma_superset_costs_more,
};
use crate::graph::GraphModel;
use crate::heap::Entry;
use crate::search::{
    attainable, dequeued, dominated, entry_of, extended, initial_state, is_first,
    is_live, is_ride, label_cost, label_of, pareto_front, pareto_optimal, reachable, relax,
    relax_links, ride_end, ride_to, ride_zones, rides_indexed, start_label, Label, SearchState,
};
use crate::zoneset::{billed, indexed, lemma_billed_bound, ZoneSet};
use vstd::multiset::Multiset;
use vstd::prelude::*;

verus! {

/// What a search is run on: a valid graph and zone index, a source with a zone,
/// and rides that stay inside the index.
pub open spec fn setting_ok(g: GraphModel, numbers: Seq<u32>, source: int) -> bool {
    &&& g.valid()
    &&& numbers.len() <= 64
    &&& 0 <= source < g.size() <= u32::MAX
    &&& g.zones[source] < 64
    &&& rides_indexed(g, numbers, source)
}

// ---------------------------------------------------------------- rides

pub proof fn lemma_ride_in_range(g: GraphModel, source: int, ride: Seq<int>)
    requires
        g.valid(),
        0 <= source < g.size(),
        is_ride(g, source, ride),
    ensures
        0 <= ride_end(g, source, ride) < g.size(),
    decreases ride.len(),
{
    if ride.len() > 0 {
        lemma_ride_in_range(g, source, ride.drop_last());
        let u = ride_end(g, source, ride.drop_last());
        assert(g.links[u][ride.last()].0 < g.size());
    }
}

pub proof fn lemma_attainable_start(g: GraphModel, source: int)
    ensures
        attainable(g, source, source, 1u64 << g.zones[source]),
{
    assert(ride_to(g, source, source, 1u64 << g.zones[source], Seq::<int>::empty()));
}

pub proof fn lemma_attainable_step(g: GraphModel, source: int, u: int, zones: u64, j: int)
    requires
        attainable(g, source, u, zones),
        0 <= j < g.links[u].len(),
    ensures
        attainable(g, source, g.links[u][j].0 as int, zones | g.links[u][j].1),
{
    let ride = choose|ride: Seq<int>| ride_to(g, source, u, zones, ride);
    let longer = ride.push(j);
    assert(longer.drop_last() =~= ride);
    assert(ride_to(g, source, g.links[u][j].0 as int, zones | g.links[u][j].1, longer));
}

pub proof fn lemma_attainable_facts(
    g: GraphModel,
    numbers: Seq<u32>,
    source: int,
    v: int,
    zones: u64,
)
    requires
        setting_ok(g, numbers, source),
        attainable(g, source, v, zones),
    ensures
        0 <= v < g.size(),
        indexed(numbers, bit_set(zones)),
        mask_subset(1u64 << g.zones[source], zones),
        billed(numbers, bit_set(zones)) <= 2 * numbers.len(),
{
    let ride = choose|ride: Seq<int>| ride_to(g, source, v, zones, ride);
    lemma_ride_in_range(g, source, ride);
    lemma_ride_has_start(g, source, ride);
    lemma_billed_bound(numbers, bit_set(zones), numbers.len());
}

proof fn lemma_ride_has_start(g: GraphModel, source: int, ride: Seq<int>)
    ensures
        mask_subset(1u64 << g.zones[source], ride_zones(g, source, ride)),
    decreases ride.len(),
{
    let start = 1u64 << g.zones[source];
    lemma_subset_order(start, start, start);
    if ride.len() > 0 {
        let front = ride.drop_last();
        lemma_ride_has_start(g, source, front);
        let mask = g.links[ride_end(g, source, front)][ride.last()].1;
        lemma_subset_order(ride_zones(g, source, front), mask, mask);
        lemma_subset_order(start, ride_zones(g, source, front), ride_zones(g, source, ride));
    }
}

// ---------------------------------------------- what every turn keeps

/// What holds of one queue entry.
pub open spec fn entry_ok(g: GraphModel, numbers: Seq<u32>, source: int, e: Entry) -> bool {
    &&& e.node < g.size()
    &&& attainable(g, source, e.node as int, e.tag)
    &&& e.cost == billed(numbers, bit_set(e.tag))
}

/// What holds of one frontier.
pub open spec fn frontier_ok(
    g: GraphModel,
    source: int,
    cap: nat,
    v: int,
    frontier: Seq<Label>,
) -> bool {
    &&& antichain(frontier)
    &&& v != source ==> frontier.len() <= cap
    &&& v == source ==> frontier == seq![start_label(g, source)]
    &&& forall|i: int|
        0 <= i < frontier.len() ==> attainable(g, source, v, (#[trigger] frontier[i]).set.0)
}

/// What holds between any two turns.
pub open spec fn state_ok(
    g: GraphModel,
    numbers: Seq<u32>,
    source: int,
    cap: nat,
    s: SearchState,
) -> bool {
    &&& s.labels.len() == g.size()
    &&& forall|v: int|
        0 <= v < g.size() ==> frontier_ok(g, source, cap, v, #[trigger] s.labels[v])
    &&& forall|e: Entry| #[trigger] s.queue.contains(e) ==> entry_ok(g, numbers, source, e)
}

/// An undominated label can arrive at any node but the source.
proof fn lemma_arrival_ok(
    g: GraphModel,
    numbers: Seq<u32>,
    source: int,
    cap: nat,
    s: SearchState,
    v: int,
    cand: Label,
)
    requires
        setting_ok(g, numbers, source),
        state_ok(g, numbers, source, cap, s),
        attainable(g, source, v, cand.set.0),
        !dominated(s.labels[v], cand.set),
    ensures
        0 <= v < g.size(),
        v != source,
        arrival_ok(numbers, s.labels[v], cand, cap),
{
    lemma_attainable_facts(g, numbers, source, v, cand.set.0);
    let frontier = s.labels[v];
    assert(frontier_ok(g, source, cap, v, frontier));
    if v == source {
        assert(frontier[0].set.0 == 1u64 << g.zones[source]);
        assert(dominated(frontier, cand.set));
    }
    assert forall|i: int| 0 <= i < frontier.len() implies label_indexed(
        numbers,
        #[trigger] frontier[i],
    ) by {
        lemma_attainable_facts(g, numbers, source, v, frontier[i].set.0);
    }
}

pub proof fn lemma_relax_keeps_state(
    g: GraphModel,
    numbers: Seq<u32>,
    source: int,
    cap: nat,
    s: SearchState,
    v: int,
    cand: Label,
)
    requires
        setting_ok(g, numbers, source),
        state_ok(g, numbers, source, cap, s),
        attainable(g, source, v, cand.set.0),
    ensures
        state_ok(g, numbers, source, cap, relax(numbers, cap, s, v, cand)),
{
    broadcast use vstd::multiset::group_multiset_axioms;

    let t = relax(numbers, cap, s, v, cand);
    if !dominated(s.labels[v], cand.set) {
        lemma_arrival_ok(g, numbers, source, cap, s, v, cand);
        lemma_arrival(numbers, s.labels[v], cand, cap);
        lemma_attainable_facts(g, numbers, source, v, cand.set.0);
        let next = arrival(numbers, s.labels[v], cand, cap);
        assert(frontier_ok(g, source, cap, v, s.labels[v]));
        assert forall|i: int| 0 <= i < next.len() implies attainable(
            g,
            source,
            v,
            (#[trigger] next[i]).set.0,
        ) by {
            assert(next.contains(next[i]));
            if next[i] != cand {
                let k = choose|k: int| 0 <= k < s.labels[v].len() && s.labels[v][k] == next[i];
                assert(attainable(g, source, v, s.labels[v][k].set.0));
            }
        }
        assert forall|w: int| 0 <= w < g.size() implies frontier_ok(
            g,
            source,
            cap,
            w,
            #[trigger] t.labels[w],
        ) by {
            if w != v {
                assert(t.labels[w] == s.labels[w]);
                assert(frontier_ok(g, source, cap, w, s.labels[w]));
            }
        }
        assert forall|e: Entry| #[trigger] t.queue.contains(e) implies entry_ok(
            g,
            numbers,
            source,
            e,
        ) by {
            if !s.queue.contains(e) {
                assert(e == entry_of(numbers, v, cand));
            }
        }
    }
}

// --------------------------------------------------------- coverage

/// Whether a ride that arrives at `x` having paid for `zones` is taken care of
/// there.
pub open spec fn served(cap: nat, s: SearchState, x: int, zones: u64) -> bool {
    &&& s.hits == 0 ==> dominated(s.labels[x], ZoneSet(zones))
    &&& cap > 0 ==> s.labels[x].len() > 0
}

/// Whether a label has been extended over the first `k` links of its node.
pub open spec fn settled(
    g: GraphModel,
    cap: nat,
    s: SearchState,
    v: int,
    l: Label,
    k: int,
) -> bool {
    forall|j: int|
        0 <= j < k ==> served(
            cap,
            s,
            (#[trigger] g.links[v][j]).0 as int,
            l.set.0 | g.links[v][j].1,
        )
}

/// Whether a label waits in the queue.
pub open spec fn pending(numbers: Seq<u32>, s: SearchState, v: int, l: Label) -> bool {
    s.queue.contains(entry_of(numbers, v, l))
}

/// Every label waits in the queue or has been extended over all its links; the
/// label `cur` of node `u` may be in the midst of it, `k` links done.
pub open spec fn coverage(
    g: GraphModel,
    numbers: Seq<u32>,
    cap: nat,
    s: SearchState,
    u: int,
    cur: Label,
    k: int,
) -> bool {
    forall|v: int, i: int|
        #![trigger s.labels[v][i]]
        0 <= v < g.size() && 0 <= i < s.labels[v].len() ==> {
            ||| pending(numbers, s, v, s.labels[v][i])
            ||| settled(g, cap, s, v, s.labels[v][i], g.links[v].len() as int)
            ||| v == u && s.labels[v][i] == cur && settled(g, cap, s, v, cur, k)
        }
}

proof fn lemma_relax_serves(
    g: GraphModel,
    numbers: Seq<u32>,
    source: int,
    cap: nat,
    s: SearchState,
    v: int,
    cand: Label,
    x: int,
    zones: u64,
)
    requires
        setting_ok(g, numbers, source),
        state_ok(g, numbers, source, cap, s),
        attainable(g, source, v, cand.set.0),
        0 <= x < g.size(),
        served(cap, s, x, zones) || (x == v && zones == cand.set.0),
    ensures
        served(cap, relax(numbers, cap, s, v, cand), x, zones),
{
    let t = relax(numbers, cap, s, v, cand);
    lemma_attainable_facts(g, numbers, source, v, cand.set.0);
    lemma_subset_order(cand.set.0, cand.set.0, cand.set.0);
    if dominated(s.labels[v], cand.set) {
        if x == v && zones == cand.set.0 {
            assert(ZoneSet(zones) == cand.set);
        }
    } else {
        lemma_arrival_ok(g, numbers, source, cap, s, v, cand);
        lemma_arrival(numbers, s.labels[v], cand, cap);
        let next = arrival(numbers, s.labels[v], cand, cap);
        if x == v {
            assert(t.labels[v] == next);
            if t.hits == 0 {
                assert(next.contains(cand));
                if zones == cand.set.0 {
                    let k = choose|k: int| 0 <= k < next.len() && next[k] == cand;
                    assert(mask_subset(next[k].set.0, zones));
                } else {
                    let frontier = s.labels[v];
                    let k = choose|k: int|
                        0 <= k < frontier.len() && mask_subset(
                            (#[trigger] frontier[k]).set.0,
                            zones,
                        );
                    assert(frontier.contains(frontier[k]));
                    if mask_subset(cand.set.0, frontier[k].set.0) {
                        lemma_subset_order(cand.set.0, frontier[k].set.0, zones);
                        let m = choose|m: int| 0 <= m < next.len() && next[m] == cand;
                        assert(mask_subset(next[m].set.0, zones));
                    } else {
                        assert(next.contains(frontier[k]));
                        let m = choose|m: int| 0 <= m < next.len() && next[m] == frontier[k];
                        assert(mask_subset(next[m].set.0, zones));
                    }
                }
            }
        } else {
            assert(t.labels[x] == s.labels[x]);
        }
    }
}

pub proof fn lemma_relax_keeps_coverage(
    g: GraphModel,
    numbers: Seq<u32>,
    source: int,
    cap: nat,
    s: SearchState,
    u: int,
    cur: Label,
    k: int,
)
    requires
        setting_ok(g, numbers, source),
        state_ok(g, numbers, source, cap, s),
        0 <= u < g.size(),
        0 <= k < g.links[u].len(),
        attainable(g, source, u, cur.set.0),
        coverage(g, numbers, cap, s, u, cur, k),
    ensures
        ({
            let link = g.links[u][k];
            forall|hops: u64| #[trigger]
                coverage(
                    g,
                    numbers,
                    cap,
                    relax(
                        numbers,
                        cap,
                        s,
                        link.0 as int,
                        (Label { set: ZoneSet(cur.set.0 | link.1), hops }),
                    ),
                    u,
                    cur,
                    k + 1,
                )
        }),
{
    broadcast use vstd::multiset::group_multiset_axioms;

    let link = g.links[u][k];
    assert forall|hops: u64| #[trigger]
        coverage(
            g,
            numbers,
            cap,
            relax(
                numbers,
                cap,
                s,
                link.0 as int,
                (Label { set: ZoneSet(cur.set.0 | link.1), hops }),
            ),
            u,
            cur,
            k + 1,
        ) by {
        let cand = Label { set: ZoneSet(cur.set.0 | link.1), hops };
        let x = link.0 as int;
        let t = relax(numbers, cap, s, x, cand);
        lemma_attainable_step(g, source, u, cur.set.0, k);
        lemma_attainable_facts(g, numbers, source, x, cand.set.0);
        lemma_relax_keeps_state(g, numbers, source, cap, s, x, cand);
        assert forall|v: int, i: int|
            #![trigger t.labels[v][i]]
            0 <= v < g.size() && 0 <= i < t.labels[v].len() implies {
            ||| pending(numbers, t, v, t.labels[v][i])
            ||| settled(g, cap, t, v, t.labels[v][i], g.links[v].len() as int)
            ||| v == u && t.labels[v][i] == cur && settled(g, cap, t, v, cur, k + 1)
        } by {
            let l = t.labels[v][i];
            // Either the label is the newcomer, or it was there before.
            if !dominated(s.labels[x], cand.set) {
                lemma_arrival_ok(g, numbers, source, cap, s, x, cand);
                lemma_arrival(numbers, s.labels[x], cand, cap);
            }
            if v == x && !dominated(s.labels[x], cand.set) && l == cand {
                assert(t.labels[v].contains(cand));
                assert(pending(numbers, t, v, l));
            } else {
                assert(s.labels[v].contains(l)) by {
                    if v == x && !dominated(s.labels[x], cand.set) {
                        assert(t.labels[v].contains(l));
                    } else {
                        assert(s.labels[v] == t.labels[v]);
                        assert(s.labels[v][i] == l);
                    }
                }
                let i0 = choose|i0: int| 0 <= i0 < s.labels[v].len() && s.labels[v][i0] == l;
                assert(s.labels[v][i0] == l);
                if pending(numbers, s, v, l) {
                    assert(pending(numbers, t, v, l));
                } else if settled(g, cap, s, v, l, g.links[v].len() as int) {
                    assert forall|j: int| 0 <= j < g.links[v].len() implies served(
                        cap,
                        t,
                        (#[trigger] g.links[v][j]).0 as int,
                        l.set.0 | g.links[v][j].1,
                    ) by {
                        assert(g.links[v][j].0 < g.size());
                        lemma_relax_serves(
                            g,
                            numbers,
                            source,
                            cap,
                            s,
                            x,
                            cand,
                            g.links[v][j].0 as int,
                            l.set.0 | g.links[v][j].1,
                        );
                    }
                } else {
                    assert(v == u && l == cur);
                    assert forall|j: int| 0 <= j < k + 1 implies served(
                        cap,
                        t,
                        (#[trigger] g.links[v][j]).0 as int,
                        l.set.0 | g.links[v][j].1,
                    ) by {
                        assert(g.links[v][j].0 < g.size());
                        lemma_relax_serves(
                            g,
                            numbers,
                            source,
                            cap,
                            s,
                            x,
                            cand,
                            g.links[v][j].0 as int,
                            l.set.0 | g.links[v][j].1,
                        );
                    }
                }
            }
        }
    }
}

// ------------------------------------------------- phases and the hop count

/// At how many nodes a zone set has been extended in the current phase.
pub open spec fn visits(done: Set<(int, u64)>, tag: u64) -> nat {
    Set::new(|x: int| done.contains((x, tag))).len()
}

/// Whether a node that was extended with a zone set still holds that label, and
/// its hop count is bounded.
pub open spec fn visited(
    g: GraphModel,
    s: SearchState,
    fc: nat,
    fh: nat,
    done: Set<(int, u64)>,
    x: int,
    tag: u64,
    l: Label,
) -> bool {
    &&& s.labels[x].contains(l)
    &&& l.set.0 == tag
    &&& l.hops <= fh
    &&& l.hops <= g.size() * fc + visits(done, tag)
}

/// Entries leave the queue by weight, so the search runs in phases of one weight
/// each. `fc` and `fh` are the weight and hops of the entry that left last, and
/// `done` holds the nodes and zone sets extended in this phase.
///
/// Within a phase no node is extended twice with one zone set at different hop
/// counts, which bounds the hops of every label.
pub open spec fn phase_ok(
    g: GraphModel,
    numbers: Seq<u32>,
    s: SearchState,
    fc: nat,
    fh: nat,
    done: Set<(int, u64)>,
) -> bool {
    &&& forall|e: Entry| #[trigger]
        s.queue.contains(e) ==> fc < e.cost || (fc == e.cost && fh <= e.hops)
    &&& forall|e: Entry| #[trigger]
        s.queue.contains(e) ==> e.hops <= 1 + g.size() * e.cost + (if e.cost == fc {
            visits(done, e.tag)
        } else {
            0
        })
    &&& forall|x: int, tag: u64| #[trigger]
        done.contains((x, tag)) ==> {
            &&& 0 <= x < g.size()
            &&& billed(numbers, bit_set(tag)) == fc
            &&& exists|l: Label| visited(g, s, fc, fh, done, x, tag, l)
        }
}

proof fn lemma_visits(g: GraphModel, done: Set<(int, u64)>, tag: u64)
    requires
        forall|x: int, t: u64| #[trigger] done.contains((x, t)) ==> 0 <= x < g.size(),
    ensures
        visits(done, tag) <= g.size(),
        Set::new(|x: int| done.contains((x, tag))).finite(),
{
    let nodes = Set::new(|x: int| done.contains((x, tag)));
    vstd::set_lib::lemma_int_range(0, g.size() as int);
    assert(nodes.subset_of(vstd::set_lib::set_int_range(0, g.size() as int)));
    vstd::set_lib::lemma_len_subset(nodes, vstd::set_lib::set_int_range(0, g.size() as int));
}

proof fn lemma_visits_insert(g: GraphModel, done: Set<(int, u64)>, u: int, tag: u64, t: u64)
    requires
        forall|x: int, t: u64| #[trigger] done.contains((x, t)) ==> 0 <= x < g.size(),
    ensures
        visits(done.insert((u, tag)), t) == visits(done, t) + (if t == tag && !done.contains(
            (u, tag),
        ) {
            1int
        } else {
            0
        }),
{
    lemma_visits(g, done, t);
    let before = Set::new(|x: int| done.contains((x, t)));
    let after = Set::new(|x: int| done.insert((u, tag)).contains((x, t)));
    if t == tag {
        assert(after =~= before.insert(u));
    } else {
        assert(after =~= before);
    }
}

/// What the next turn's phase is, given the entry that leaves the queue.
pub open spec fn next_done(
    s: SearchState,
    e: Entry,
    fc: nat,
    done: Set<(int, u64)>,
) -> Set<(int, u64)> {
    let kept = if e.cost == fc {
        done
    } else {
        Set::empty()
    };
    if is_live(s, e) {
        kept.insert((e.node as int, e.tag))
    } else {
        kept
    }
}

pub proof fn lemma_dequeue(
    g: GraphModel,
    numbers: Seq<u32>,
    source: int,
    cap: nat,
    s: SearchState,
    e: Entry,
    fc: nat,
    fh: nat,
    done: Set<(int, u64)>,
)
    requires
        setting_ok(g, numbers, source),
        state_ok(g, numbers, source, cap, s),
        coverage(g, numbers, cap, s, -1, label_of(e), 0),
        phase_ok(g, numbers, s, fc, fh, done),
        is_first(s.queue, e),
    ensures
        state_ok(g, numbers, source, cap, dequeued(s, e)),
        coverage(g, numbers, cap, dequeued(s, e), e.node as int, label_of(e), 0),
        phase_ok(
            g,
            numbers,
            dequeued(s, e),
            e.cost as nat,
            e.hops as nat,
            next_done(s, e, fc, done),
        ),
        fc <= e.cost,
        e.cost <= 2 * numbers.len(),
        is_live(s, e) ==> next_done(s, e, fc, done).contains((e.node as int, e.tag)) && e.hops
            <= g.size() * e.cost + visits(next_done(s, e, fc, done), e.tag),
{
    broadcast use vstd::multiset::group_multiset_axioms;

    let t = dequeued(s, e);
    let u = e.node as int;
    let tag = e.tag;
    let nc = e.cost as nat;
    let nh = e.hops as nat;
    let kept = if e.cost == fc {
        done
    } else {
        Set::<(int, u64)>::empty()
    };
    let after = next_done(s, e, fc, done);
    assert(entry_ok(g, numbers, source, e));
    lemma_attainable_facts(g, numbers, source, u, tag);
    assert(state_ok(g, numbers, source, cap, t)) by {
        assert forall|v: int| 0 <= v < g.size() implies frontier_ok(
            g,
            source,
            cap,
            v,
            #[trigger] t.labels[v],
        ) by {
            assert(t.labels[v] == s.labels[v]);
        }
        assert forall|x: Entry| #[trigger] t.queue.contains(x) implies entry_ok(
            g,
            numbers,
            source,
            x,
        ) by {
            assert(s.queue.contains(x));
        }
    }
    assert forall|v: int, i: int|
        #![trigger t.labels[v][i]]
        0 <= v < g.size() && 0 <= i < t.labels[v].len() implies {
        ||| pending(numbers, t, v, t.labels[v][i])
        ||| settled(g, cap, t, v, t.labels[v][i], g.links[v].len() as int)
        ||| v == u && t.labels[v][i] == label_of(e) && settled(g, cap, t, v, label_of(e), 0)
    } by {
        let l = s.labels[v][i];
        if pending(numbers, s, v, l) {
            if entry_of(numbers, v, l) == e {
                assert(v == u);
                assert(l == label_of(e));
            } else {
                assert(pending(numbers, t, v, l));
            }
        } else {
            assert(settled(g, cap, s, v, l, g.links[v].len() as int));
            assert forall|j: int| 0 <= j < g.links[v].len() implies served(
                cap,
                t,
                (#[trigger] g.links[v][j]).0 as int,
                l.set.0 | g.links[v][j].1,
            ) by {
                assert(served(cap, s, g.links[v][j].0 as int, l.set.0 | g.links[v][j].1));
            }
        }
    }
    // The bookkeeping of the phase.
    assert forall|x: int, t0: u64| #[trigger] kept.contains((x, t0)) implies 0 <= x
        < g.size() by {
        assert(done.contains((x, t0)));
    }
    assert forall|t0: u64| visits(after, t0) >= #[trigger] visits(kept, t0) by {
        if is_live(s, e) {
            lemma_visits_insert(g, kept, u, tag, t0);
        }
    }
    assert(e.hops <= 1 + g.size() * e.cost + visits(kept, tag)) by {
        lemma_visits(g, kept, tag);
    }
    if is_live(s, e) {
        lemma_visits_insert(g, kept, u, tag, tag);
        if kept.contains((u, tag)) {
            assert(done.contains((u, tag)));
            let l = choose|l: Label| visited(g, s, fc, fh, done, u, tag, l);
            lemma_subset_order(tag, tag, tag);
            lemma_same_set_same_label(s.labels[u], l, label_of(e));
        }
        assert(visited(g, t, nc, nh, after, u, tag, label_of(e)));
    }
    assert forall|x: int, t0: u64| #[trigger] after.contains((x, t0)) implies {
        &&& 0 <= x < g.size()
        &&& billed(numbers, bit_set(t0)) == nc
        &&& exists|l: Label| visited(g, t, nc, nh, after, x, t0, l)
    } by {
        if !(x == u && t0 == tag && is_live(s, e)) {
            assert(kept.contains((x, t0)));
            assert(done.contains((x, t0)));
            let l = choose|l: Label| visited(g, s, fc, fh, done, x, t0, l);
            assert(visits(after, t0) >= visits(kept, t0));
            assert(visited(g, t, nc, nh, after, x, t0, l));
        }
    }
    assert forall|x: Entry| #[trigger] t.queue.contains(x) implies nc < x.cost || (nc == x.cost
        && nh <= x.hops) by {
        assert(s.queue.contains(x));
    }
    assert forall|x: Entry| #[trigger] t.queue.contains(x) implies x.hops <= 1 + g.size() * x.cost
        + (if x.cost == nc {
        visits(after, x.tag)
    } else {
        0
    }) by {
        assert(s.queue.contains(x));
        assert(visits(after, x.tag) >= visits(kept, x.tag));
    }
}

proof fn lemma_same_set_same_label(s: Seq<Label>, a: Label, b: Label)
    requires
        antichain(s),
        s.contains(a),
        s.contains(b),
        mask_subset(a.set.0, b.set.0),
    ensures
        a == b,
{
    let i = choose|i: int| 0 <= i < s.len() && s[i] == a;
    let j = choose|j: int| 0 <= j < s.len() && s[j] == b;
    if i < j {
        assert(incomparable(s[i], s[j]));
    } else if j < i {
        assert(incomparable(s[j], s[i]));
    }
}

// ----------------------------------------------------------- termination

/// How many more labels costing at most `fc` the first `k` frontiers could hold.
pub open spec fn slack(
    numbers: Seq<u32>,
    labels: Seq<Seq<Label>>,
    fc: nat,
    room: nat,
    k: nat,
) -> int
    decreases k,
{
    if k == 0 {
        0
    } else {
        slack(numbers, labels, fc, room, (k - 1) as nat) + room - cheap_count(
            numbers,
            labels[k - 1],
            fc,
        )
    }
}

/// The hops of all labels costing at most `fc` on the first `k` frontiers.
pub open spec fn hop_total(
    numbers: Seq<u32>,
    labels: Seq<Seq<Label>>,
    fc: nat,
    k: nat,
) -> nat
    decreases k,
{
    if k == 0 {
        0
    } else {
        hop_total(numbers, labels, fc, (k - 1) as nat) + cheap_hops(numbers, labels[k - 1], fc)
    }
}

/// How many queued entries cost exactly `fc`.
pub open spec fn queued_at(queue: Multiset<Entry>, fc: nat) -> nat {
    queue.filter(|e: Entry| e.cost == fc).len()
}

/// The room of a frontier: the source holds one label whatever the cap.
pub open spec fn room(cap: nat) -> nat {
    if cap == 0 {
        1
    } else {
        cap
    }
}

proof fn lemma_slack_update(
    numbers: Seq<u32>,
    labels: Seq<Seq<Label>>,
    fc: nat,
    room: nat,
    k: nat,
    v: int,
    next: Seq<Label>,
)
    requires
        0 <= v < labels.len(),
        k <= labels.len(),
    ensures
        slack(numbers, labels.update(v, next), fc, room, k) == slack(numbers, labels, fc, room, k)
            + (if v < k {
            cheap_count(numbers, labels[v], fc) - cheap_count(numbers, next, fc)
        } else {
            0
        }),
        hop_total(numbers, labels.update(v, next), fc, k) == hop_total(numbers, labels, fc, k)
            + (if v < k {
            cheap_hops(numbers, next, fc) - cheap_hops(numbers, labels[v], fc)
        } else {
            0
        }),
    decreases k,
{
    if k > 0 {
        lemma_slack_update(numbers, labels, fc, room, (k - 1) as nat, v, next);
    }
}

pub proof fn lemma_slack_nonneg(
    g: GraphModel,
    numbers: Seq<u32>,
    source: int,
    cap: nat,
    s: SearchState,
    fc: nat,
    k: nat,
)
    requires
        state_ok(g, numbers, source, cap, s),
        k <= g.size(),
    ensures
        slack(numbers, s.labels, fc, room(cap), k) >= 0,
    decreases k,
{
    if k > 0 {
        lemma_slack_nonneg(g, numbers, source, cap, s, fc, (k - 1) as nat);
        assert(frontier_ok(g, source, cap, k - 1, s.labels[k - 1]));
        lemma_cheap_count_bound(numbers, s.labels[k - 1], fc);
    }
}

proof fn lemma_queued_insert(queue: Multiset<Entry>, e: Entry, fc: nat)
    ensures
        queued_at(queue.insert(e), fc) == queued_at(queue, fc) + (if e.cost == fc {
            1int
        } else {
            0
        }),
{
    broadcast use vstd::multiset::group_multiset_axioms;

    let f = |x: Entry| x.cost == fc;
    if e.cost == fc {
        assert(queue.insert(e).filter(f) =~= queue.filter(f).insert(e));
    } else {
        assert(queue.insert(e).filter(f) =~= queue.filter(f));
    }
}

pub proof fn lemma_queued_remove(queue: Multiset<Entry>, e: Entry)
    requires
        queue.contains(e),
    ensures
        queued_at(queue.remove(e), e.cost as nat) + 1 == queued_at(queue, e.cost as nat),
{
    broadcast use vstd::multiset::group_multiset_axioms;

    assert(queue.remove(e).insert(e) =~= queue);
    lemma_queued_insert(queue.remove(e), e, e.cost as nat);
}

/// Whether the search got on since `s`: fewer free places for labels of the
/// current weight, or as many with fewer hops, or nothing of that weight changed.
pub open spec fn got_on(
    g: GraphModel,
    numbers: Seq<u32>,
    cap: nat,
    fc: nat,
    s: SearchState,
    t: SearchState,
) -> bool {
    let a0 = slack(numbers, s.labels, fc, room(cap), g.size());
    let a1 = slack(numbers, t.labels, fc, room(cap), g.size());
    let b0 = hop_total(numbers, s.labels, fc, g.size());
    let b1 = hop_total(numbers, t.labels, fc, g.size());
    ||| a1 < a0
    ||| a1 == a0 && b1 < b0
    ||| a1 == a0 && b1 == b0 && queued_at(t.queue, fc) == queued_at(s.queue, fc)
}

/// Extending the entry `e` of the current phase over one link.
proof fn lemma_relax_phase(
    g: GraphModel,
    numbers: Seq<u32>,
    source: int,
    cap: nat,
    s: SearchState,
    e: Entry,
    done: Set<(int, u64)>,
    j: int,
)
    requires
        setting_ok(g, numbers, source),
        state_ok(g, numbers, source, cap, s),
        entry_ok(g, numbers, source, e),
        phase_ok(g, numbers, s, e.cost as nat, e.hops as nat, done),
        e.hops <= g.size() * e.cost + visits(done, e.tag),
        e.hops < u64::MAX,
        0 <= j < g.links[e.node as int].len(),
    ensures
        ({
            let link = g.links[e.node as int][j];
            let t = relax(numbers, cap, s, link.0 as int, extended(e, link));
            &&& phase_ok(g, numbers, t, e.cost as nat, e.hops as nat, done)
            &&& got_on(g, numbers, cap, e.cost as nat, s, t)
        }),
{
    broadcast use vstd::multiset::group_multiset_axioms;

    let u = e.node as int;
    let fc = e.cost as nat;
    let fh = e.hops as nat;
    let link = g.links[u][j];
    let x = link.0 as int;
    let cand = extended(e, link);
    let t = relax(numbers, cap, s, x, cand);
    lemma_attainable_step(g, source, u, e.tag, j);
    lemma_attainable_facts(g, numbers, source, x, cand.set.0);
    lemma_attainable_facts(g, numbers, source, u, e.tag);
    // The newcomer costs at least as much, and more unless it adds no zone.
    let before = label_of(e);
    lemma_subset_order(e.tag, link.1, link.1);
    lemma_subset_bits(e.tag, cand.set.0);
    crate::zoneset::law_subset_never_costs_more(
        numbers,
        bit_set(e.tag),
        cand.set@,
        Set::empty(),
    );
    assert(label_cost(numbers, cand) >= fc);
    if label_cost(numbers, cand) == fc {
        if !mask_subset(cand.set.0, before.set.0) {
            lemma_superset_costs_more(numbers, before, cand);
        }
        lemma_subset_order(cand.set.0, e.tag, e.tag);
        assert(cand.set.0 == e.tag);
    }
    assert forall|y: int, t0: u64| #[trigger] done.contains((y, t0)) implies 0 <= y
        < g.size() by {}
    lemma_visits(g, done, e.tag);
    if !dominated(s.labels[x], cand.set) {
        lemma_arrival_ok(g, numbers, source, cap, s, x, cand);
        lemma_arrival(numbers, s.labels[x], cand, cap);
        lemma_arrival_sums(numbers, s.labels[x], cand, cap, fc);
        let next = arrival(numbers, s.labels[x], cand, cap);
        lemma_slack_update(numbers, s.labels, fc, room(cap), g.size(), x, next);
        let fresh = entry_of(numbers, x, cand);
        lemma_queued_insert(s.queue, fresh, fc);
        assert(fresh.cost == label_cost(numbers, cand));
        assert(cand.hops == e.hops + 1);
        assert(fresh.hops <= 1 + g.size() * fresh.cost + (if fresh.cost == fc {
            visits(done, fresh.tag)
        } else {
            0
        })) by {
            if fresh.cost != fc {
                assert(g.size() * fc + g.size() <= g.size() * fresh.cost) by (nonlinear_arith)
                    requires
                        fresh.cost >= fc + 1,
                ;
            }
        }
        assert forall|y: int, t0: u64| #[trigger] done.contains((y, t0)) implies {
            &&& 0 <= y < g.size()
            &&& billed(numbers, bit_set(t0)) == fc
            &&& exists|l: Label| visited(g, t, fc, fh, done, y, t0, l)
        } by {
            let l = choose|l: Label| visited(g, s, fc, fh, done, y, t0, l);
            if y == x {
                lemma_arrival_keeps(numbers, s.labels[x], cand, cap, l, fc);
            } else {
                assert(t.labels[y] == s.labels[y]);
            }
            assert(visited(g, t, fc, fh, done, y, t0, l));
        }
        assert forall|y: Entry| #[trigger] t.queue.contains(y) implies {
            &&& fc < y.cost || (fc == y.cost && fh <= y.hops)
            &&& y.hops <= 1 + g.size() * y.cost + (if y.cost == fc {
                visits(done, y.tag)
            } else {
                0
            })
        } by {
            if !s.queue.contains(y) {
                assert(y == fresh);
            }
        }
        assert(phase_ok(g, numbers, t, fc, fh, done));
        assert(got_on(g, numbers, cap, fc, s, t));
    }
}

/// Everything a turn needs to know while an entry is being extended.
pub proof fn lemma_extend(
    g: GraphModel,
    numbers: Seq<u32>,
    source: int,
    cap: nat,
    s: SearchState,
    e: Entry,
    done: Set<(int, u64)>,
    j: nat,
)
    requires
        setting_ok(g, numbers, source),
        state_ok(g, numbers, source, cap, s),
        entry_ok(g, numbers, source, e),
        coverage(g, numbers, cap, s, e.node as int, label_of(e), 0),
        phase_ok(g, numbers, s, e.cost as nat, e.hops as nat, done),
        e.hops <= g.size() * e.cost + visits(done, e.tag),
        e.hops < u64::MAX,
        j <= g.links[e.node as int].len(),
    ensures
        ({
            let t = relax_links(g, numbers, cap, s, e, j);
            &&& state_ok(g, numbers, source, cap, t)
            &&& coverage(g, numbers, cap, t, e.node as int, label_of(e), j as int)
            &&& phase_ok(g, numbers, t, e.cost as nat, e.hops as nat, done)
            &&& got_on(g, numbers, cap, e.cost as nat, s, t)
        }),
    decreases j,
{
    if j > 0 {
        let k = (j - 1) as nat;
        lemma_extend(g, numbers, source, cap, s, e, done, k);
        let p = relax_links(g, numbers, cap, s, e, k);
        let u = e.node as int;
        let link = g.links[u][k as int];
        let cand = extended(e, link);
        lemma_attainable_step(g, source, u, e.tag, k as int);
        lemma_relax_keeps_state(g, numbers, source, cap, p, link.0 as int, cand);
        lemma_relax_keeps_coverage(g, numbers, source, cap, p, u, label_of(e), k as int);
        lemma_relax_phase(g, numbers, source, cap, p, e, done, k as int);
        let t = relax_links(g, numbers, cap, s, e, j);
        assert(t == relax(numbers, cap, p, link.0 as int, cand));
        assert(cand == Label { set: ZoneSet(label_of(e).set.0 | link.1), hops: cand.hops });
        assert(coverage(g, numbers, cap, t, u, label_of(e), k as int + 1));
    }
}

// ------------------------------------------------------------- both ends

pub proof fn lemma_initial(g: GraphModel, numbers: Seq<u32>, source: int, cap: nat)
    requires
        setting_ok(g, numbers, source),
    ensures
        ({
            let s = initial_state(g, numbers, source);
            &&& state_ok(g, numbers, source, cap, s)
            &&& coverage(g, numbers, cap, s, -1, start_label(g, source), 0)
            &&& phase_ok(g, numbers, s, 0, 0, Set::empty())
        }),
{
    broadcast use vstd::multiset::group_multiset_axioms;

    let s = initial_state(g, numbers, source);
    let start = start_label(g, source);
    let first = entry_of(numbers, source, start);
    lemma_attainable_start(g, source);
    lemma_attainable_facts(g, numbers, source, source, start.set.0);
    assert forall|e: Entry| #[trigger] s.queue.contains(e) implies e == first by {}
    assert(first.cost > 0) by {
        crate::bits::lemma_bit_single(g.zones[source]);
        let z = g.zones[source] as int;
        assert(start.set@.contains(z));
        crate::zoneset::lemma_billed_strict(numbers, Set::empty(), start.set@, z);
    }
    assert(first.hops <= 1 + g.size() * first.cost) by (nonlinear_arith)
        requires
            first.hops == 1,
            first.cost >= 0,
    ;
    assert forall|v: int| 0 <= v < g.size() implies frontier_ok(
        g,
        source,
        cap,
        v,
        #[trigger] s.labels[v],
    ) by {}
    assert forall|v: int, i: int|
        #![trigger s.labels[v][i]]
        0 <= v < g.size() && 0 <= i < s.labels[v].len() implies pending(
        numbers,
        s,
        v,
        s.labels[v][i],
    ) by {
        assert(s.queue.contains(first));
    }
}

/// Once a label has left the queue and been dealt with, none is in the midst of it.
pub proof fn lemma_turn_done(
    g: GraphModel,
    numbers: Seq<u32>,
    cap: nat,
    s: SearchState,
    u: int,
    cur: Label,
    k: int,
    any: Label,
)
    requires
        s.labels.len() == g.size(),
        coverage(g, numbers, cap, s, u, cur, k),
        k == g.links[u].len() || !s.labels[u].contains(cur),
    ensures
        coverage(g, numbers, cap, s, -1, any, 0),
{
    assert forall|v: int, i: int|
        #![trigger s.labels[v][i]]
        0 <= v < g.size() && 0 <= i < s.labels[v].len() implies {
        ||| pending(numbers, s, v, s.labels[v][i])
        ||| settled(g, cap, s, v, s.labels[v][i], g.links[v].len() as int)
        ||| v == -1 && s.labels[v][i] == any && settled(g, cap, s, v, any, 0)
    } by {
        assert(s.labels[v].contains(s.labels[v][i]));
    }
}

/// The queue's first entry is the only one, whichever way it is picked.
pub proof fn lemma_first_unique(queue: Multiset<Entry>, a: Entry, b: Entry)
    requires
        is_first(queue, a),
        is_first(queue, b),
    ensures
        a == b,
{
    assert(queue.contains(a) && queue.contains(b));
}

/// What a run that has come to its end knows of every ride.
proof fn lemma_ride_served(
    g: GraphModel,
    numbers: Seq<u32>,
    source: int,
    cap: nat,
    s: SearchState,
    ride: Seq<int>,
)
    requires
        setting_ok(g, numbers, source),
        state_ok(g, numbers, source, cap, s),
        coverage(g, numbers, cap, s, -1, start_label(g, source), 0),
        s.queue.len() == 0,
        is_ride(g, source, ride),
    ensures
        served(cap, s, ride_end(g, source, ride), ride_zones(g, source, ride)),
    decreases ride.len(),
{
    broadcast use vstd::multiset::group_multiset_axioms;

    if ride.len() == 0 {
        assert(frontier_ok(g, source, cap, source, s.labels[source]));
        let zones = ride_zones(g, source, ride);
        lemma_subset_order(zones, zones, zones);
        assert(mask_subset(s.labels[source][0].set.0, zones));
    } else {
        let front = ride.drop_last();
        lemma_ride_served(g, numbers, source, cap, s, front);
        lemma_ride_in_range(g, source, front);
        let u = ride_end(g, source, front);
        let j = ride.last();
        let link = g.links[u][j];
        let zones = ride_zones(g, source, front);
        assert forall|i: int| 0 <= i < s.labels[u].len() implies served(
            cap,
            s,
            link.0 as int,
            (#[trigger] s.labels[u][i]).set.0 | link.1,
        ) by {
            assert(!pending(numbers, s, u, s.labels[u][i]));
            assert(settled(g, cap, s, u, s.labels[u][i], g.links[u].len() as int));
            assert(g.links[u][j].0 < g.size());
        }
        if cap > 0 {
            assert(served(cap, s, link.0 as int, s.labels[u][0].set.0 | link.1));
        }
        if s.hits == 0 {
            let i = choose|i: int|
                0 <= i < s.labels[u].len() && mask_subset(
                    (#[trigger] s.labels[u][i]).set.0,
                    zones,
                );
            let l = s.labels[u][i];
            let x = link.0 as int;
            assert(served(cap, s, x, l.set.0 | link.1));
            let m = choose|m: int|
                0 <= m < s.labels[x].len() && mask_subset(
                    (#[trigger] s.labels[x][m]).set.0,
                    l.set.0 | link.1,
                );
            lemma_subset_order(l.set.0, zones, link.1);
            lemma_subset_order(s.labels[x][m].set.0, l.set.0 | link.1, zones | link.1);
            assert(mask_subset(s.labels[x][m].set.0, ride_zones(g, source, ride)));
        }
    }
}

/// When the queue has run dry: with room for a label, every reachable node has
/// one; and if nothing was ever truncated, the labels of a node are exactly its
/// Pareto-optimal zone sets.
pub proof fn lemma_finished(
    g: GraphModel,
    numbers: Seq<u32>,
    source: int,
    cap: nat,
    s: SearchState,
    v: int,
)
    requires
        setting_ok(g, numbers, source),
        state_ok(g, numbers, source, cap, s),
        coverage(g, numbers, cap, s, -1, start_label(g, source), 0),
        s.queue.len() == 0,
        0 <= v < g.size(),
    ensures
        s.labels[v].len() > 0 ==> reachable(g, source, v),
        cap > 0 ==> (reachable(g, source, v) <==> s.labels[v].len() > 0),
        s.hits == 0 ==> forall|zones: u64| #[trigger]
            attainable(g, source, v, zones) ==> dominated(s.labels[v], ZoneSet(zones)),
        s.hits == 0 ==> pareto_front(g, source, v).finite() && pareto_front(g, source, v).len()
            == s.labels[v].len(),
        s.hits == 0 ==> forall|i: int|
            0 <= i < s.labels[v].len() ==> pareto_optimal(
                g,
                source,
                v,
                (#[trigger] s.labels[v][i]).set.0,
            ),
{
    let labels = s.labels[v];
    assert(frontier_ok(g, source, cap, v, labels));
    if labels.len() > 0 {
        assert(attainable(g, source, v, labels[0].set.0));
    }
    assert forall|zones: u64| #[trigger] attainable(g, source, v, zones) implies served(
        cap,
        s,
        v,
        zones,
    ) by {
        let ride = choose|ride: Seq<int>| ride_to(g, source, v, zones, ride);
        lemma_ride_served(g, numbers, source, cap, s, ride);
    }
    if s.hits == 0 {
        assert forall|i: int| 0 <= i < labels.len() implies pareto_optimal(
            g,
            source,
            v,
            (#[trigger] labels[i]).set.0,
        ) by {
            let zones = labels[i].set.0;
            assert forall|other: u64|
                attainable(g, source, v, other) && mask_subset(other, zones) implies other
                == zones by {
                assert(served(cap, s, v, other));
                let k = choose|k: int|
                    0 <= k < labels.len() && mask_subset((#[trigger] labels[k]).set.0, other);
                lemma_subset_order(labels[k].set.0, other, zones);
                assert(labels.contains(labels[k]) && labels.contains(labels[i]));
                lemma_same_set_same_label(labels, labels[k], labels[i]);
                lemma_subset_order(other, zones, zones);
            }
        }
        let masks = Seq::new(labels.len(), |i: int| labels[i].set.0);
        assert(masks.no_duplicates()) by {
            assert forall|i: int, j: int|
                0 <= i < masks.len() && 0 <= j < masks.len() && i != j implies masks[i]
                != masks[j] by {
                lemma_subset_order(masks[i], masks[i], masks[i]);
                if i < j {
                    assert(incomparable(labels[i], labels[j]));
                } else {
                    assert(incomparable(labels[j], labels[i]));
                }
            }
        }
        masks.unique_seq_to_set();
        assert(masks.to_set() =~= pareto_front(g, source, v)) by {
            assert forall|zones: u64| masks.to_set().contains(zones) implies pareto_front(
                g,
                source,
                v,
            ).contains(zones) by {
                let i = choose|i: int| 0 <= i < masks.len() && masks[i] == zones;
                assert(pareto_optimal(g, source, v, labels[i].set.0));
            }
            assert forall|zones: u64|
                pareto_front(g, source, v).contains(zones) implies masks.to_set().contains(
                zones,
            ) by {
                assert(served(cap, s, v, zones));
                let k = choose|k: int|
                    0 <= k < labels.len() && mask_subset((#[trigger] labels[k]).set.0, zones);
                assert(attainable(g, source, v, labels[k].set.0));
                assert(masks[k] == zones);
            }
        }
    }
}

/// The hops of an entry that is being extended can be counted on.
pub proof fn lemma_hops_fit(
    g: GraphModel,
    numbers: Seq<u32>,
    source: int,
    e: Entry,
    done: Set<(int, u64)>,
)
    requires
        setting_ok(g, numbers, source),
        e.cost <= 2 * numbers.len(),
        forall|x: int, t: u64| #[trigger] done.contains((x, t)) ==> 0 <= x < g.size(),
    ensures
        e.hops <= g.size() * e.cost + visits(done, e.tag) ==> e.hops < u64::MAX,
{
    lemma_visits(g, done, e.tag);
    assert(g.size() * e.cost + g.size() <= g.size() * (2 * numbers.len() + 1)) by (nonlinear_arith)
        requires
            e.cost <= 2 * numbers.len(),
    ;
    assert(g.size() * (2 * numbers.len() + 1) <= 0xffff_ffff * 129) by (nonlinear_arith)
        requires
            g.size() <= 0xffff_ffff,
            numbers.len() <= 64,
    ;
}

} // verus!
