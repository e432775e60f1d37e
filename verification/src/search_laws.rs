//! What holds of fares as a whole: across caps, directions, legs and runs.

use crate::bits::{
    bit_set, has_bit, lemma_bit_or, lemma_bit_single, lemma_masks_equal, lemma_subset_bits,
    lemma_subset_order, mask_subset,
};
use crate::frontier::{lemma_sort_members, lemma_sort_sorted};
use crate::graph::GraphModel;
use crate::heap::Entry;
use crate::search::{
    advanced, attainable, dequeued, dominated, entry_of, extended, first_cheapest, insert_label,
    is_first, is_outcome, is_ride, label_cost, label_le, pareto_front, relax, relax_links, reports,
    ride_end, ride_to, ride_zones, rides_indexed, searched, sort_labels, start_label, state_after,
    summarises, truncated, undominated, weights_attained, weights_optimal, Label, SearchResult,
    SearchState, LABEL_CAP,
};
use crate::search_proof::lemma_ride_in_range;
use crate::zoneset::{
    billed, billed_below, indexed, law_subset_never_costs_more, lemma_double_zones, ZoneSet,
};
use vstd::prelude::*;

verus! {

/// A cap can only overcharge: whatever cap a search ran under, no weight it
/// reports is below the one of a search that truncated nothing.
pub proof fn law_cap_never_undercharges(
    g: GraphModel,
    numbers: Seq<u32>,
    source: int,
    capped: SearchResult,
    exact: SearchResult,
    v: int,
)
    requires
        weights_attained(g, numbers, source, capped),
        weights_optimal(g, numbers, source, exact),
        0 <= v < g.size(),
        capped.weights@[v] is Some,
    ensures
        exact.weights@[v] is Some,
        exact.weights@[v]->0 <= capped.weights@[v]->0,
{
    assert(capped.best_sets@[v] is Some);
    let set = capped.best_sets@[v]->0;
    assert(attainable(g, source, v, set.0));
}

proof fn lemma_stopped(g: GraphModel, numbers: Seq<u32>, source: int, cap: nat, k: nat, m: nat)
    requires
        state_after(g, numbers, source, cap, k).queue.len() == 0,
        k <= m,
    ensures
        state_after(g, numbers, source, cap, m) == state_after(g, numbers, source, cap, k),
    decreases m,
{
    if k < m {
        lemma_stopped(g, numbers, source, cap, k, (m - 1) as nat);
    }
}

/// Runs are reproducible: two searches of one graph from one source under one
/// cap report the same weights, zone sets, label counts and truncations.
pub proof fn law_runs_are_reproducible(
    g: GraphModel,
    numbers: Seq<u32>,
    source: int,
    cap: nat,
    a: SearchResult,
    b: SearchResult,
)
    requires
        is_outcome(g, numbers, source, cap, a),
        is_outcome(g, numbers, source, cap, b),
    ensures
        a.weights@ == b.weights@,
        a.best_sets@ == b.best_sets@,
        a.label_counts@ == b.label_counts@,
        a.cap_hits == b.cap_hits,
{
    let k = choose|k: nat|
        {
            &&& (#[trigger] state_after(g, numbers, source, cap, k)).queue.len() == 0
            &&& summarises(numbers, state_after(g, numbers, source, cap, k), a)
        };
    let m = choose|k: nat|
        {
            &&& (#[trigger] state_after(g, numbers, source, cap, k)).queue.len() == 0
            &&& summarises(numbers, state_after(g, numbers, source, cap, k), b)
        };
    if k <= m {
        lemma_stopped(g, numbers, source, cap, k, m);
    } else {
        lemma_stopped(g, numbers, source, cap, m, k);
    }
    let s = state_after(g, numbers, source, cap, k);
    assert forall|v: int| 0 <= v < s.labels.len() implies a.weights@[v] == b.weights@[v]
        && #[trigger] a.best_sets@[v] == b.best_sets@[v] && a.label_counts@[v]
        == b.label_counts@[v] by {
        let frontier = s.labels[v];
        assert(reports(numbers, frontier, a.weights@[v], a.best_sets@[v]));
        assert(reports(numbers, frontier, b.weights@[v], b.best_sets@[v]));
        if frontier.len() > 0 {
            let i = choose|i: int|
                {
                    &&& #[trigger] first_cheapest(numbers, frontier, i)
                    &&& a.weights@[v] is Some && a.weights@[v]->0 == label_cost(
                        numbers,
                        frontier[i],
                    )
                    &&& a.best_sets@[v] == Some(frontier[i].set)
                };
            let j = choose|i: int|
                {
                    &&& #[trigger] first_cheapest(numbers, frontier, i)
                    &&& b.weights@[v] is Some && b.weights@[v]->0 == label_cost(
                        numbers,
                        frontier[i],
                    )
                    &&& b.best_sets@[v] == Some(frontier[i].set)
                };
            if i < j {
                assert(label_cost(numbers, frontier[j]) < label_cost(numbers, frontier[i]));
            } else if j < i {
                assert(label_cost(numbers, frontier[i]) < label_cost(numbers, frontier[j]));
            }
        }
    }
    assert(a.weights@ =~= b.weights@) by {
        assert forall|v: int| 0 <= v < s.labels.len() implies a.weights@[v] == b.weights@[v] by {
            let _ = a.best_sets@[v];
            assert(a.best_sets@[v] == b.best_sets@[v]);
        }
    }
    assert(a.best_sets@ =~= b.best_sets@);
    assert(a.label_counts@ =~= b.label_counts@) by {
        assert forall|v: int| 0 <= v < s.labels.len() implies a.label_counts@[v]
            == b.label_counts@[v] by {
            assert(a.best_sets@[v] == b.best_sets@[v]);
        }
    }
}

/// Taking one link first, and then the ride from where it leads.
proof fn lemma_ride_prepend(g: GraphModel, u: int, j: int, ride: Seq<int>)
    requires
        g.valid(),
        0 <= u < g.size(),
        0 <= j < g.links[u].len(),
        is_ride(g, g.links[u][j].0 as int, ride),
    ensures
        is_ride(g, u, seq![j] + ride),
        ride_end(g, u, seq![j] + ride) == ride_end(g, g.links[u][j].0 as int, ride),
        ride_zones(g, u, seq![j] + ride) == g.links[u][j].1 | ride_zones(
            g,
            g.links[u][j].0 as int,
            ride,
        ),
    decreases ride.len(),
{
    let v = g.links[u][j].0 as int;
    let mask = g.links[u][j].1;
    let whole = seq![j] + ride;
    if ride.len() == 0 {
        let none: Seq<int> = Seq::empty();
        assert(whole.drop_last() =~= none);
        assert(is_ride(g, u, none));
        assert(ride_end(g, u, none) == u);
        assert(ride_zones(g, u, none) == 1u64 << g.zones[u]);
        let a = (1u64 << g.zones[u]) | mask;
        let b = mask | (1u64 << g.zones[v]);
        lemma_bit_single(g.zones[u]);
        lemma_bit_single(g.zones[v]);
        lemma_bit_or(1u64 << g.zones[u], mask);
        lemma_bit_or(mask, 1u64 << g.zones[v]);
        assert(bit_set(a) =~= bit_set(b));
        lemma_masks_equal(a, b);
    } else {
        let front = ride.drop_last();
        lemma_ride_prepend(g, u, j, front);
        assert(whole.drop_last() =~= seq![j] + front);
        let at = ride_end(g, v, front);
        let last = g.links[at][ride.last()].1;
        let rest = ride_zones(g, v, front);
        lemma_bit_or(mask, rest);
        lemma_bit_or(mask | rest, last);
        lemma_bit_or(rest, last);
        lemma_bit_or(mask, rest | last);
        assert(bit_set((mask | rest) | last) =~= bit_set(mask | (rest | last)));
        lemma_masks_equal((mask | rest) | last, mask | (rest | last));
    }
}

/// A ride can be taken backwards, over the same zones.
proof fn lemma_ride_reversed(g: GraphModel, source: int, ride: Seq<int>) -> (back: Seq<int>)
    requires
        g.valid(),
        0 <= source < g.size() <= u32::MAX,
        is_ride(g, source, ride),
    ensures
        ride_to(
            g,
            ride_end(g, source, ride),
            source,
            ride_zones(g, source, ride),
            back,
        ),
    decreases ride.len(),
{
    if ride.len() == 0 {
        let back: Seq<int> = Seq::empty();
        back
    } else {
        let front = ride.drop_last();
        lemma_ride_in_range(g, source, front);
        let u = ride_end(g, source, front);
        let rest = lemma_ride_reversed(g, source, front);
        let link = g.links[u][ride.last()];
        let v = link.0 as int;
        let j = choose|j: int| 0 <= j < g.links[v].len() && g.links[v][j] == (u as u32, link.1);
        assert(g.links[v].contains((u as u32, link.1)));
        assert(g.links[v][j].0 == u);
        lemma_ride_prepend(g, v, j, rest);
        let a = link.1 | ride_zones(g, source, front);
        let b = ride_zones(g, source, front) | link.1;
        lemma_bit_or(link.1, ride_zones(g, source, front));
        lemma_bit_or(ride_zones(g, source, front), link.1);
        assert(bit_set(a) =~= bit_set(b));
        lemma_masks_equal(a, b);
        seq![j] + rest
    }
}

/// Whatever zones a ride covers, a ride back covers the same.
pub proof fn lemma_attainable_back(g: GraphModel, a: int, b: int, zones: u64)
    requires
        g.valid(),
        0 <= a < g.size() <= u32::MAX,
        attainable(g, a, b, zones),
    ensures
        attainable(g, b, a, zones),
{
    let ride = choose|ride: Seq<int>| ride_to(g, a, b, zones, ride);
    let back = lemma_ride_reversed(g, a, ride);
    assert(ride_to(g, b, a, zones, back));
}

/// Fares are the same in both directions: the least weight from `a` to `b` is
/// the least weight from `b` to `a`.
pub proof fn law_fares_are_symmetric(
    g: GraphModel,
    numbers: Seq<u32>,
    a: int,
    b: int,
    from_a: SearchResult,
    from_b: SearchResult,
)
    requires
        g.valid(),
        0 <= a < g.size() <= u32::MAX,
        0 <= b < g.size(),
        weights_attained(g, numbers, a, from_a),
        weights_optimal(g, numbers, a, from_a),
        weights_attained(g, numbers, b, from_b),
        weights_optimal(g, numbers, b, from_b),
    ensures
        from_a.weights@[b] == from_b.weights@[a],
{
    if from_a.weights@[b] is Some {
        assert(from_a.best_sets@[b] is Some);
        let set = from_a.best_sets@[b]->0;
        lemma_attainable_back(g, a, b, set.0);
    }
    if from_b.weights@[a] is Some {
        assert(from_b.best_sets@[a] is Some);
        let set = from_b.best_sets@[a]->0;
        lemma_attainable_back(g, b, a, set.0);
    }
}

proof fn lemma_leg(g: GraphModel, source: int, ride: Seq<int>, k: int)
    requires
        is_ride(g, source, ride),
        0 <= k <= ride.len(),
    ensures
        is_ride(g, source, ride.take(k)),
        mask_subset(ride_zones(g, source, ride.take(k)), ride_zones(g, source, ride)),
    decreases ride.len(),
{
    let whole = ride_zones(g, source, ride);
    if k == ride.len() {
        assert(ride.take(k) =~= ride);
        lemma_subset_order(whole, whole, whole);
    } else {
        let front = ride.drop_last();
        lemma_leg(g, source, front, k);
        assert(front.take(k) =~= ride.take(k));
        let part = ride_zones(g, source, front);
        let link = g.links[ride_end(g, source, front)][ride.last()].1;
        lemma_subset_order(part, link, whole);
        lemma_subset_order(ride_zones(g, source, ride.take(k)), part, whole);
    }
}

/// Getting off early never costs more: along any ride, the weight of every
/// station on the way is no more than what the whole ride is billed.
pub proof fn law_leg_never_costs_more(
    g: GraphModel,
    numbers: Seq<u32>,
    source: int,
    exact: SearchResult,
    ride: Seq<int>,
    k: int,
)
    requires
        g.valid(),
        0 <= source < g.size(),
        weights_optimal(g, numbers, source, exact),
        is_ride(g, source, ride),
        0 <= k <= ride.len(),
    ensures
        exact.weights@[ride_end(g, source, ride.take(k))] is Some,
        exact.weights@[ride_end(g, source, ride.take(k))]->0 <= billed(
            numbers,
            bit_set(ride_zones(g, source, ride)),
        ),
{
    lemma_leg(g, source, ride, k);
    let leg = ride.take(k);
    lemma_ride_in_range(g, source, leg);
    let part = ride_zones(g, source, leg);
    let whole = ride_zones(g, source, ride);
    assert(ride_to(g, source, ride_end(g, source, leg), part, leg));
    assert(attainable(g, source, ride_end(g, source, leg), part));
    lemma_subset_bits(part, whole);
    law_subset_never_costs_more(numbers, bit_set(part), bit_set(whole), Set::empty());
}

/// Whether every zone of every node and link is in the zone index.
pub open spec fn zones_indexed(g: GraphModel, numbers: Seq<u32>) -> bool {
    &&& forall|u: int| 0 <= u < g.size() ==> #[trigger] g.zones[u] < numbers.len()
    &&& forall|u: int, i: int|
        #![trigger g.links[u][i]]
        0 <= u < g.size() && 0 <= i < g.links[u].len() ==> indexed(
            numbers,
            bit_set(g.links[u][i].1),
        )
}

/// Where every node's and link's zones are in the index, so are those of every
/// ride: the search can bill whatever it comes across.
pub proof fn law_rides_stay_indexed(g: GraphModel, numbers: Seq<u32>, source: int)
    requires
        g.valid(),
        numbers.len() <= 64,
        zones_indexed(g, numbers),
        0 <= source < g.size(),
    ensures
        rides_indexed(g, numbers, source),
{
    assert forall|ride: Seq<int>| #[trigger] is_ride(g, source, ride) implies indexed(
        numbers,
        bit_set(ride_zones(g, source, ride)),
    ) by {
        lemma_ride_indexed(g, numbers, source, ride);
    }
}

proof fn lemma_ride_indexed(g: GraphModel, numbers: Seq<u32>, source: int, ride: Seq<int>)
    requires
        g.valid(),
        numbers.len() <= 64,
        zones_indexed(g, numbers),
        0 <= source < g.size(),
        is_ride(g, source, ride),
    ensures
        indexed(numbers, bit_set(ride_zones(g, source, ride))),
    decreases ride.len(),
{
    if ride.len() == 0 {
        lemma_bit_single(g.zones[source]);
    } else {
        let front = ride.drop_last();
        lemma_ride_indexed(g, numbers, source, front);
        lemma_ride_in_range(g, source, front);
        let u = ride_end(g, source, front);
        lemma_bit_or(ride_zones(g, source, front), g.links[u][ride.last()].1);
    }
}

/// Links that are relaxed without truncating anything are relaxed alike under a
/// larger cap.
proof fn lemma_untruncated_links(
    g: GraphModel,
    numbers: Seq<u32>,
    cap: nat,
    big: nat,
    s: SearchState,
    e: Entry,
    j: nat,
)
    requires
        cap <= big,
    ensures
        relax_links(g, numbers, cap, s, e, j).hits >= s.hits,
        relax_links(g, numbers, cap, s, e, j).hits == s.hits ==> relax_links(
            g,
            numbers,
            big,
            s,
            e,
            j,
        ) == relax_links(g, numbers, cap, s, e, j),
    decreases j,
{
    if j > 0 {
        lemma_untruncated_links(g, numbers, cap, big, s, e, (j - 1) as nat);
    }
}

/// A run that has truncated nothing so far has gone as one under a larger cap.
proof fn lemma_untruncated_run(
    g: GraphModel,
    numbers: Seq<u32>,
    source: int,
    cap: nat,
    big: nat,
    k: nat,
)
    requires
        cap <= big,
        state_after(g, numbers, source, cap, k).hits == 0,
    ensures
        state_after(g, numbers, source, big, k) == state_after(g, numbers, source, cap, k),
    decreases k,
{
    if k > 0 {
        let s = state_after(g, numbers, source, cap, (k - 1) as nat);
        let e = choose|e: Entry| is_first(s.queue, e);
        let rest = dequeued(s, e);
        lemma_untruncated_links(g, numbers, cap, big, rest, e, g.links[e.node as int].len());
        assert(advanced(g, numbers, cap, s).hits >= s.hits);
        lemma_untruncated_run(g, numbers, source, cap, big, (k - 1) as nat);
    }
}

/// A cap that truncates nothing changes nothing: what a search reports under it is
/// what a search under any larger cap reports.
pub proof fn law_untruncated_runs_agree(
    g: GraphModel,
    numbers: Seq<u32>,
    source: int,
    cap: nat,
    big: nat,
    r: SearchResult,
)
    requires
        is_outcome(g, numbers, source, cap, r),
        r.cap_hits == 0,
        cap <= big,
    ensures
        is_outcome(g, numbers, source, big, r),
{
    let k = choose|k: nat|
        {
            &&& (#[trigger] state_after(g, numbers, source, cap, k)).queue.len() == 0
            &&& summarises(numbers, state_after(g, numbers, source, cap, k), r)
        };
    lemma_untruncated_run(g, numbers, source, cap, big, k);
    assert(state_after(g, numbers, source, big, k).queue.len() == 0);
}

/// No truncation means that the capped answer is exact: a search without a cap
/// truncates nothing, and a search under any cap that truncated nothing agrees with
/// it in weights, zone sets and label counts.
pub proof fn law_no_truncation_means_exact(
    g: GraphModel,
    numbers: Seq<u32>,
    source: int,
    cap: usize,
    capped: SearchResult,
    uncapped: SearchResult,
)
    requires
        searched(g, numbers, source, cap, capped),
        searched(g, numbers, source, usize::MAX, uncapped),
    ensures
        uncapped.cap_hits == 0,
        capped.cap_hits == 0 ==> {
            &&& capped.weights@ == uncapped.weights@
            &&& capped.best_sets@ == uncapped.best_sets@
            &&& capped.label_counts@ == uncapped.label_counts@
        },
{
    if capped.cap_hits == 0 {
        law_untruncated_runs_agree(
            g,
            numbers,
            source,
            cap as nat,
            usize::MAX as nat,
            capped,
        );
        law_runs_are_reproducible(g, numbers, source, usize::MAX as nat, capped, uncapped);
    }
}

/// Without a cap the fare between two stations is the same in both directions.
pub proof fn law_uncapped_fares_are_symmetric(
    g: GraphModel,
    numbers: Seq<u32>,
    a: int,
    b: int,
    from_a: SearchResult,
    from_b: SearchResult,
)
    requires
        g.valid(),
        0 <= a < g.size() <= u32::MAX,
        0 <= b < g.size(),
        searched(g, numbers, a, usize::MAX, from_a),
        searched(g, numbers, b, usize::MAX, from_b),
    ensures
        from_a.weights@[b] == from_b.weights@[a],
{
    law_fares_are_symmetric(g, numbers, a, b, from_a, from_b);
}

/// A search keeps at most 64 labels per station, and agrees in all it reports with
/// a search under that cap.
pub proof fn law_search_is_capped_at_64(
    g: GraphModel,
    numbers: Seq<u32>,
    source: int,
    plain: SearchResult,
    capped: SearchResult,
)
    requires
        searched(g, numbers, source, LABEL_CAP, plain),
        searched(g, numbers, source, 64, capped),
    ensures
        plain.weights@ == capped.weights@,
        plain.best_sets@ == capped.best_sets@,
        plain.label_counts@ == capped.label_counts@,
        plain.cap_hits == capped.cap_hits,
        forall|v: int| 0 <= v < g.size() ==> #[trigger] plain.label_counts@[v] <= 64,
{
    law_runs_are_reproducible(g, numbers, source, 64, plain, capped);
}

// --------------------------------------------------------- rides written out

/// A ride that is written out station by station crosses the zones of its start and
/// of every link it takes.
proof fn lemma_written_ride(
    g: GraphModel,
    source: int,
    nodes: Seq<int>,
    steps: Seq<int>,
    k: int,
)
    requires
        0 <= k <= steps.len(),
        nodes.len() == steps.len() + 1,
        nodes[0] == source,
        g.zones[source] < 64,
        forall|i: int|
            0 <= i < steps.len() ==> {
                &&& 0 <= #[trigger] steps[i] < g.links[nodes[i]].len()
                &&& g.links[nodes[i]][steps[i]].0 == nodes[i + 1]
            },
    ensures
        is_ride(g, source, steps.take(k)),
        ride_end(g, source, steps.take(k)) == nodes[k],
        forall|b: int| #[trigger]
            has_bit(ride_zones(g, source, steps.take(k)), b) <==> b == g.zones[source] || exists|
                i: int,
            |
                0 <= i < k && has_bit(g.links[nodes[i]][#[trigger] steps[i]].1, b),
    decreases k,
{
    if k == 0 {
        assert(steps.take(0) =~= Seq::empty());
        lemma_bit_single(g.zones[source]);
    } else {
        lemma_written_ride(g, source, nodes, steps, k - 1);
        let front = steps.take(k - 1);
        assert(steps.take(k).drop_last() =~= front);
        assert(steps.take(k).last() == steps[k - 1]);
        let mask = g.links[nodes[k - 1]][steps[k - 1]].1;
        lemma_bit_or(ride_zones(g, source, front), mask);
        assert forall|b: int| #[trigger]
            has_bit(ride_zones(g, source, steps.take(k)), b) <==> b == g.zones[source] || exists|
                i: int,
            |
                0 <= i < k && has_bit(g.links[nodes[i]][#[trigger] steps[i]].1, b) by {
            assert(has_bit(ride_zones(g, source, steps.take(k)), b) <==> has_bit(
                ride_zones(g, source, front),
                b,
            ) || has_bit(mask, b));
            if has_bit(mask, b) {
                assert(has_bit(g.links[nodes[k - 1]][steps[k - 1]].1, b));
            }
        }
    }
}

/// Zone weights added up bit by bit are what a set is billed as.
proof fn lemma_written_bill(numbers: Seq<u32>, set: Set<int>, sums: Seq<int>, k: int)
    requires
        0 <= k <= numbers.len(),
        sums.len() == numbers.len() + 1,
        sums[0] == 0,
        forall|b: int|
            0 <= b < numbers.len() ==> #[trigger] sums[b + 1] == sums[b] + (if set.contains(b) {
                if numbers[b] == 110 || numbers[b] == 120 {
                    2int
                } else {
                    1
                }
            } else {
                0
            }),
    ensures
        sums[k] == billed_below(numbers, set, k as nat),
    decreases k,
{
    if k > 0 {
        lemma_written_bill(numbers, set, sums, k - 1);
        assert(sums[k - 1 + 1] == sums[k]);
        lemma_double_zones(numbers[k - 1]);
    }
}

/// No ride is cheaper than the fare. Take any ride, written out as the stations
/// `nodes` it calls at and the links `steps` it takes between them, and add up in
/// `sums` what its zones cost: one each, two for zones 110 and 120, every zone once,
/// be it that of the start or one that some link crosses. A search that truncated
/// nothing charges no more than that to where the ride ends.
pub proof fn law_no_ride_is_cheaper(
    g: GraphModel,
    numbers: Seq<u32>,
    source: int,
    cap: usize,
    r: SearchResult,
    nodes: Seq<int>,
    steps: Seq<int>,
    sums: Seq<int>,
)
    requires
        searched(g, numbers, source, cap, r),
        r.cap_hits == 0,
        0 <= source < g.size(),
        g.zones[source] < 64,
        numbers.len() <= 64,
        nodes.len() == steps.len() + 1,
        nodes[0] == source,
        forall|i: int| 0 <= i < nodes.len() ==> 0 <= #[trigger] nodes[i] < g.size(),
        forall|i: int|
            0 <= i < steps.len() ==> {
                &&& 0 <= #[trigger] steps[i] < g.links[nodes[i]].len()
                &&& g.links[nodes[i]][steps[i]].0 == nodes[i + 1]
            },
        sums.len() == numbers.len() + 1,
        sums[0] == 0,
        forall|b: int|
            0 <= b < numbers.len() ==> #[trigger] sums[b + 1] == sums[b] + (if b == g.zones[source]
                || exists|i: int|
                0 <= i < steps.len() && has_bit(g.links[nodes[i]][#[trigger] steps[i]].1, b) {
                if numbers[b] == 110 || numbers[b] == 120 {
                    2int
                } else {
                    1
                }
            } else {
                0
            }),
    ensures
        r.weights@[nodes[steps.len() as int]] is Some,
        r.weights@[nodes[steps.len() as int]]->0 <= sums[numbers.len() as int],
{
    let n = steps.len() as int;
    let end = nodes[n];
    lemma_written_ride(g, source, nodes, steps, n);
    assert(steps.take(n) =~= steps);
    let mask = ride_zones(g, source, steps);
    assert(ride_to(g, source, end, mask, steps));
    assert(attainable(g, source, end, mask));
    let set = bit_set(mask);
    assert forall|b: int| 0 <= b < numbers.len() implies #[trigger] sums[b + 1] == sums[b] + (
    if set.contains(b) {
        if numbers[b] == 110 || numbers[b] == 120 {
            2int
        } else {
            1
        }
    } else {
        0
    }) by {
        assert(set.contains(b) <==> has_bit(mask, b));
    }
    lemma_written_bill(numbers, set, sums, numbers.len() as int);
}

/// The fare is that of some ride: whatever the cap, where a search reports a weight
/// and a set of zones there is a ride, written out likewise, that crosses exactly these
/// zones and costs exactly this weight.
pub proof fn law_the_fare_is_that_of_a_ride(
    g: GraphModel,
    numbers: Seq<u32>,
    source: int,
    cap: usize,
    r: SearchResult,
    v: int,
) -> (w: (Seq<int>, Seq<int>, Seq<int>))
    requires
        searched(g, numbers, source, cap, r),
        0 <= source < g.size(),
        g.valid(),
        g.zones[source] < 64,
        0 <= v < g.size(),
        r.weights@[v] is Some,
    ensures
        ({
            let (nodes, steps, sums) = w;
            &&& nodes.len() == steps.len() + 1
            &&& nodes[0] == source
            &&& nodes[steps.len() as int] == v
            &&& forall|i: int|
                0 <= i < steps.len() ==> {
                    &&& 0 <= #[trigger] steps[i] < g.links[nodes[i]].len()
                    &&& g.links[nodes[i]][steps[i]].0 == nodes[i + 1]
                }
            &&& r.best_sets@[v] is Some
            &&& forall|b: int| #[trigger]
                has_bit((r.best_sets@[v]->0).0, b) <==> b == g.zones[source] || exists|i: int|
                    0 <= i < steps.len() && has_bit(g.links[nodes[i]][#[trigger] steps[i]].1, b)
            &&& sums.len() == numbers.len() + 1
            &&& sums[0] == 0
            &&& forall|b: int|
                0 <= b < numbers.len() ==> #[trigger] sums[b + 1] == sums[b] + (if has_bit(
                    (r.best_sets@[v]->0).0,
                    b,
                ) {
                    if numbers[b] == 110 || numbers[b] == 120 {
                        2int
                    } else {
                        1
                    }
                } else {
                    0
                })
            &&& r.weights@[v]->0 == sums[numbers.len() as int]
        }),
{
    assert(weights_attained(g, numbers, source, r));
    assert(r.best_sets@[v] is Some);
    let set = r.best_sets@[v]->0;
    assert(attainable(g, source, v, set.0));
    let steps = choose|ride: Seq<int>| ride_to(g, source, v, set.0, ride);
    let nodes = Seq::new(steps.len() + 1, |i: int| ride_end(g, source, steps.take(i)));
    let sums = Seq::new(
        numbers.len() + 1,
        |k: int| billed_below(numbers, bit_set(set.0), k as nat) as int,
    );
    assert(steps.take(0) =~= Seq::empty());
    assert(steps.take(steps.len() as int) =~= steps);
    assert forall|i: int| 0 <= i < steps.len() implies {
        &&& 0 <= #[trigger] steps[i] < g.links[nodes[i]].len()
        &&& g.links[nodes[i]][steps[i]].0 == nodes[i + 1]
    } by {
        lemma_ride_begins(g, source, steps, i + 1);
        assert(steps.take(i + 1).drop_last() =~= steps.take(i));
        assert(steps.take(i + 1).last() == steps[i]);
    }
    lemma_written_ride(g, source, nodes, steps, steps.len() as int);
    assert forall|b: int| 0 <= b < numbers.len() implies #[trigger] sums[b + 1] == sums[b] + (
    if has_bit(set.0, b) {
        if numbers[b] == 110 || numbers[b] == 120 {
            2int
        } else {
            1
        }
    } else {
        0
    }) by {
        assert(bit_set(set.0).contains(b) <==> has_bit(set.0, b));
        lemma_double_zones(numbers[b]);
    }
    (nodes, steps, sums)
}

/// The beginning of a ride is a ride.
proof fn lemma_ride_begins(g: GraphModel, source: int, ride: Seq<int>, k: int)
    requires
        is_ride(g, source, ride),
        0 <= k <= ride.len(),
    ensures
        is_ride(g, source, ride.take(k)),
    decreases ride.len(),
{
    if k == ride.len() {
        assert(ride.take(k) =~= ride);
    } else {
        lemma_ride_begins(g, source, ride.drop_last(), k);
        assert(ride.drop_last().take(k) =~= ride.take(k));
    }
}

/// Without truncation a station keeps one label for each set of zones that some ride
/// to it crosses and no other such set lies within.
pub proof fn law_labels_are_the_smallest_sets(
    g: GraphModel,
    numbers: Seq<u32>,
    source: int,
    cap: usize,
    r: SearchResult,
    v: int,
)
    requires
        searched(g, numbers, source, cap, r),
        r.cap_hits == 0,
        0 <= v < g.size(),
    ensures
        r.label_counts@[v] == Set::new(
            |zones: u64|
                attainable(g, source, v, zones) && forall|other: u64| #[trigger]
                    attainable(g, source, v, other) && bit_set(other).subset_of(bit_set(zones))
                        ==> other == zones,
        ).len(),
{
    let front = pareto_front(g, source, v);
    let small = Set::new(
        |zones: u64|
            attainable(g, source, v, zones) && forall|other: u64| #[trigger]
                attainable(g, source, v, other) && bit_set(other).subset_of(bit_set(zones))
                    ==> other == zones,
    );
    assert forall|zones: u64| front.contains(zones) <==> small.contains(zones) by {
        if front.contains(zones) {
            assert forall|other: u64| #[trigger]
                attainable(g, source, v, other) && bit_set(other).subset_of(
                    bit_set(zones),
                ) implies other == zones by {
                lemma_subset_bits(other, zones);
            }
        }
        if small.contains(zones) {
            assert forall|other: u64|
                attainable(g, source, v, other) && mask_subset(other, zones) implies other
                == zones by {
                lemma_subset_bits(other, zones);
            }
        }
    }
    assert(front =~= small);
}

/// What truncation keeps: no more labels than the cap, all of them from before, and
/// none that was dropped is cheaper than one that was kept, or as cheap with fewer
/// stations on the way. Where there are no more than the cap, all stay as they are.
pub proof fn law_truncation_keeps_the_cheapest(
    numbers: Seq<u32>,
    labels: Seq<Label>,
    cap: nat,
    kept: Label,
    dropped: Label,
)
    ensures
        ({
            let next = truncated(numbers, labels, cap);
            &&& labels.len() <= cap ==> next == labels
            &&& labels.len() > cap ==> next.len() == cap
            &&& next.contains(kept) ==> labels.contains(kept)
            &&& next.contains(kept) && labels.contains(dropped) && !next.contains(dropped) ==> {
                ||| billed(numbers, bit_set(kept.set.0)) < billed(numbers, bit_set(dropped.set.0))
                ||| billed(numbers, bit_set(kept.set.0)) == billed(
                    numbers,
                    bit_set(dropped.set.0),
                ) && kept.hops <= dropped.hops
            }
        }),
{
    if labels.len() > cap {
        let all = sort_labels(numbers, labels);
        let next = truncated(numbers, labels, cap);
        lemma_sort_members(numbers, labels);
        lemma_sort_sorted(numbers, labels);
        lemma_sort_length(numbers, labels);
        if next.contains(kept) {
            let i = choose|i: int| 0 <= i < next.len() && next[i] == kept;
            assert(all[i] == kept);
            assert(all.contains(kept));
            if labels.contains(dropped) && !next.contains(dropped) {
                assert(all.contains(dropped));
                let j = choose|j: int| 0 <= j < all.len() && all[j] == dropped;
                if j < cap {
                    assert(next[j] == dropped);
                }
                assert(label_le(numbers, all[i], all[j]));
            }
        }
    }
}

proof fn lemma_sort_length(numbers: Seq<u32>, s: Seq<Label>)
    ensures
        sort_labels(numbers, s).len() == s.len(),
    decreases s.len(),
{
    if s.len() > 0 {
        lemma_sort_length(numbers, s.drop_last());
        lemma_insert_length(numbers, sort_labels(numbers, s.drop_last()), s.last());
    }
}

proof fn lemma_insert_length(numbers: Seq<u32>, s: Seq<Label>, l: Label)
    ensures
        insert_label(numbers, s, l).len() == s.len() + 1,
    decreases s.len(),
{
    if s.len() > 0 && !label_le(numbers, s.last(), l) {
        lemma_insert_length(numbers, s.drop_last(), l);
    }
}

/// What becomes of a station's labels when a new one arrives: it is ignored where some
/// label there needs no zone beyond its own; otherwise it joins those that need a zone
/// it does not, and the list is truncated, which counts as one hit of the cap.
pub proof fn law_an_arrival_replaces_what_it_dominates(
    numbers: Seq<u32>,
    cap: nat,
    s: SearchState,
    node: int,
    cand: Label,
)
    requires
        0 <= node < s.labels.len(),
    ensures
        ({
            let t = relax(numbers, cap, s, node, cand);
            let ignored = exists|i: int|
                0 <= i < s.labels[node].len() && bit_set((#[trigger] s.labels[node][i]).set.0)
                    .subset_of(bit_set(cand.set.0));
            let rest = s.labels[node].filter(
                |l: Label| !bit_set(cand.set.0).subset_of(bit_set(l.set.0)),
            ).push(cand);
            &&& ignored ==> t == s
            &&& !ignored ==> {
                &&& t.labels == s.labels.update(node, truncated(numbers, rest, cap))
                &&& t.hits == s.hits + (if rest.len() > cap {
                    1int
                } else {
                    0
                })
            }
        }),
{
    let row = s.labels[node];
    lemma_undominated_filter(row, cand.set);
    if dominated(row, cand.set) {
        let i = choose|i: int|
            0 <= i < row.len() && mask_subset((#[trigger] row[i]).set.0, cand.set.0);
        lemma_subset_bits(row[i].set.0, cand.set.0);
        assert(bit_set(s.labels[node][i].set.0).subset_of(bit_set(cand.set.0)));
    }
    if exists|i: int|
        0 <= i < s.labels[node].len() && bit_set((#[trigger] s.labels[node][i]).set.0).subset_of(
            bit_set(cand.set.0),
        ) {
        let i = choose|i: int|
            0 <= i < s.labels[node].len() && bit_set((#[trigger] s.labels[node][i]).set.0)
                .subset_of(bit_set(cand.set.0));
        lemma_subset_bits(row[i].set.0, cand.set.0);
        assert(mask_subset(row[i].set.0, cand.set.0));
    }
}

proof fn lemma_undominated_filter(row: Seq<Label>, set: ZoneSet)
    ensures
        undominated(row, set) == row.filter(
            |l: Label| !bit_set(set.0).subset_of(bit_set(l.set.0)),
        ),
    decreases row.len(),
{
    reveal(Seq::filter);
    if row.len() > 0 {
        lemma_undominated_filter(row.drop_last(), set);
        lemma_subset_bits(set.0, row.last().set.0);
    }
}

/// What is reported of a station's labels: nothing where there are none; otherwise the
/// billed weight and the zones of the cheapest, and of equally cheap ones the first.
pub proof fn law_the_first_cheapest_label_is_reported(
    numbers: Seq<u32>,
    frontier: Seq<Label>,
    weight: Option<u32>,
    best: Option<ZoneSet>,
) -> (i: int)
    requires
        reports(numbers, frontier, weight, best),
    ensures
        frontier.len() == 0 ==> weight is None && best is None,
        frontier.len() > 0 ==> {
            &&& 0 <= i < frontier.len()
            &&& best == Some(frontier[i].set)
            &&& weight is Some
            &&& weight->0 == billed(numbers, frontier[i].set@)
            &&& forall|j: int|
                0 <= j < frontier.len() ==> billed(numbers, frontier[i].set@) <= billed(
                    numbers,
                    (#[trigger] frontier[j]).set@,
                )
            &&& forall|j: int|
                0 <= j < i ==> billed(numbers, frontier[i].set@) != billed(
                    numbers,
                    (#[trigger] frontier[j]).set@,
                )
        },
{
    if frontier.len() == 0 {
        0
    } else {
        let i = choose|i: int|
            {
                &&& #[trigger] first_cheapest(numbers, frontier, i)
                &&& weight is Some && weight->0 == label_cost(numbers, frontier[i])
                &&& best == Some(frontier[i].set)
            };
        assert forall|j: int| 0 <= j < frontier.len() implies billed(
            numbers,
            frontier[i].set@,
        ) <= billed(numbers, (#[trigger] frontier[j]).set@) by {
            assert(label_cost(numbers, frontier[i]) <= label_cost(numbers, frontier[j]));
        }
        assert forall|j: int| 0 <= j < i implies billed(numbers, frontier[i].set@) != billed(
            numbers,
            (#[trigger] frontier[j]).set@,
        ) by {
            assert(label_cost(numbers, frontier[i]) < label_cost(numbers, frontier[j]));
        }
        i
    }
}

/// A label counts the stations on its way and holds the zones crossed: at the start that
/// is one station and its zone, and taking a link adds one station and the zones that
/// the link crosses.
pub proof fn law_a_label_counts_its_stations(
    g: GraphModel,
    source: int,
    e: Entry,
    link: (u32, u64),
    zone: int,
)
    requires
        g.zones[source] < 64,
        e.hops < u64::MAX,
    ensures
        start_label(g, source).hops == 1,
        start_label(g, source).set@.contains(zone) <==> zone == g.zones[source],
        extended(e, link).hops - e.hops == 1,
        extended(e, link).set@.contains(zone) <==> has_bit(e.tag, zone) || has_bit(link.1, zone),
{
    lemma_bit_single(g.zones[source]);
    lemma_bit_or(e.tag, link.1);
    assert(bit_set(1u64 << g.zones[source]).contains(zone) == has_bit(
        1u64 << g.zones[source],
        zone,
    ));
    assert(bit_set(e.tag | link.1).contains(zone) == has_bit(e.tag | link.1, zone));
}

/// A station waits in the queue under what its label is billed, the stations the label
/// counts, and its own number.
pub proof fn law_labels_queue_by_what_they_are_billed(numbers: Seq<u32>, node: u32, l: Label)
    requires
        billed(numbers, l.set@) <= u128::MAX,
    ensures
        entry_of(numbers, node as int, l).cost == billed(numbers, l.set@),
        entry_of(numbers, node as int, l).hops == l.hops,
        entry_of(numbers, node as int, l).node == node,
        bit_set(entry_of(numbers, node as int, l).tag) == l.set@,
{
}

/// A search starts with a single label, at its source, and with that one in its queue.
pub proof fn law_a_search_starts_at_its_source(
    g: GraphModel,
    numbers: Seq<u32>,
    source: int,
    cap: nat,
    v: int,
)
    requires
        0 <= source < g.size(),
        0 <= v < g.size(),
    ensures
        ({
            let start = state_after(g, numbers, source, cap, 0);
            &&& start.labels.len() == g.size()
            &&& start.labels[v].len() == if v == source {
                1int
            } else {
                0
            }
            &&& start.labels[source][0] == start_label(g, source)
            &&& start.queue.len() == 1
            &&& start.queue.contains(entry_of(numbers, source, start.labels[source][0]))
            &&& start.hits == 0
        }),
{
    broadcast use vstd::multiset::group_multiset_axioms;

}

} // verus!
