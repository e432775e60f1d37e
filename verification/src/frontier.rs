//! Facts about a single node's frontier: sorting, pruning and truncating it.

use crate::bits::{lemma_subset_bits, lemma_subset_order, mask_subset};
use crate::search::{
    insert_label, label_cost, label_le, sort_labels, truncated, undominated, Label,
};
use crate::zoneset::{indexed, lemma_billed_strict, ZoneSet};
use vstd::prelude::*;

verus! {

/// Neither label pays for a subset of the other's zones.
pub open spec fn incomparable(a: Label, b: Label) -> bool {
    !mask_subset(a.set.0, b.set.0) && !mask_subset(b.set.0, a.set.0)
}

/// No label of the frontier dominates another.
pub open spec fn antichain(s: Seq<Label>) -> bool {
    forall|i: int, j: int|
        #![trigger s[i], s[j]]
        0 <= i < j < s.len() ==> incomparable(s[i], s[j])
}

/// Every zone of the label is in the index.
pub open spec fn label_indexed(numbers: Seq<u32>, l: Label) -> bool {
    indexed(numbers, l.set@)
}

/// How many labels of the frontier cost at most `limit`.
pub open spec fn cheap_count(numbers: Seq<u32>, s: Seq<Label>, limit: nat) -> nat
    decreases s.len(),
{
    if s.len() == 0 {
        0
    } else {
        cheap_count(numbers, s.drop_last(), limit) + if label_cost(numbers, s.last()) <= limit {
            1nat
        } else {
            0
        }
    }
}

/// The hops of those labels, added up.
pub open spec fn cheap_hops(numbers: Seq<u32>, s: Seq<Label>, limit: nat) -> nat
    decreases s.len(),
{
    if s.len() == 0 {
        0
    } else {
        cheap_hops(numbers, s.drop_last(), limit) + if label_cost(numbers, s.last()) <= limit {
            s.last().hops as nat
        } else {
            0
        }
    }
}

pub proof fn lemma_cheap_count_bound(numbers: Seq<u32>, s: Seq<Label>, limit: nat)
    ensures
        cheap_count(numbers, s, limit) <= s.len(),
    decreases s.len(),
{
    if s.len() > 0 {
        lemma_cheap_count_bound(numbers, s.drop_last(), limit);
    }
}

/// Taking the last label off.
pub proof fn lemma_cheap_push(numbers: Seq<u32>, s: Seq<Label>, l: Label, limit: nat)
    ensures
        cheap_count(numbers, s.push(l), limit) == cheap_count(numbers, s, limit) + if label_cost(
            numbers,
            l,
        ) <= limit {
            1int
        } else {
            0
        },
        cheap_hops(numbers, s.push(l), limit) == cheap_hops(numbers, s, limit) + if label_cost(
            numbers,
            l,
        ) <= limit {
            l.hops as int
        } else {
            0
        },
{
    assert(s.push(l).drop_last() =~= s);
}

// ------------------------------------------------------------ insertion

pub proof fn lemma_insert_members(numbers: Seq<u32>, s: Seq<Label>, l: Label)
    ensures
        insert_label(numbers, s, l).len() == s.len() + 1,
        forall|x: Label| #[trigger]
            insert_label(numbers, s, l).contains(x) <==> s.contains(x) || x == l,
    decreases s.len(),
{
    let out = insert_label(numbers, s, l);
    if s.len() == 0 || label_le(numbers, s.last(), l) {
        assert forall|x: Label| #[trigger] out.contains(x) <==> s.contains(x) || x == l by {
            lemma_push_contains(s, l, x);
        }
    } else {
        let front = s.drop_last();
        lemma_insert_members(numbers, front, l);
        assert(front.push(s.last()) =~= s);
        assert forall|x: Label| #[trigger] out.contains(x) <==> s.contains(x) || x == l by {
            lemma_push_contains(insert_label(numbers, front, l), s.last(), x);
            lemma_push_contains(front, s.last(), x);
        }
    }
}

pub proof fn lemma_push_contains(s: Seq<Label>, l: Label, x: Label)
    ensures
        s.push(l).contains(x) <==> s.contains(x) || x == l,
{
    if s.contains(x) {
        let i = choose|i: int| 0 <= i < s.len() && s[i] == x;
        assert(s.push(l)[i] == x);
    }
    if x == l {
        assert(s.push(l)[s.len() as int] == x);
    }
    if s.push(l).contains(x) {
        let i = choose|i: int| 0 <= i < s.push(l).len() && s.push(l)[i] == x;
        if i < s.len() {
            assert(s[i] == x);
        }
    }
}

pub proof fn lemma_insert_sums(numbers: Seq<u32>, s: Seq<Label>, l: Label, limit: nat)
    ensures
        cheap_count(numbers, insert_label(numbers, s, l), limit) == cheap_count(
            numbers,
            s.push(l),
            limit,
        ),
        cheap_hops(numbers, insert_label(numbers, s, l), limit) == cheap_hops(
            numbers,
            s.push(l),
            limit,
        ),
    decreases s.len(),
{
    lemma_cheap_push(numbers, s, l, limit);
    if !(s.len() == 0 || label_le(numbers, s.last(), l)) {
        let front = s.drop_last();
        lemma_insert_sums(numbers, front, l, limit);
        lemma_cheap_push(numbers, insert_label(numbers, front, l), s.last(), limit);
        lemma_cheap_push(numbers, front, l, limit);
        assert(front.push(s.last()) =~= s);
        lemma_cheap_push(numbers, front, s.last(), limit);
    }
}

pub proof fn lemma_insert_antichain(numbers: Seq<u32>, s: Seq<Label>, l: Label)
    requires
        antichain(s.push(l)),
    ensures
        antichain(insert_label(numbers, s, l)),
    decreases s.len(),
{
    let p = s.push(l);
    if !(s.len() == 0 || label_le(numbers, s.last(), l)) {
        let front = s.drop_last();
        let q = front.push(l);
        assert(antichain(q)) by {
            assert forall|i: int, j: int|
                #![trigger q[i], q[j]]
                0 <= i < j < q.len() implies incomparable(q[i], q[j]) by {
                assert(q[i] == p[i]);
                if j < front.len() {
                    assert(q[j] == p[j]);
                } else {
                    assert(q[j] == p[s.len() as int]);
                }
            }
        }
        lemma_insert_antichain(numbers, front, l);
        let inner = insert_label(numbers, front, l);
        lemma_insert_members(numbers, front, l);
        let out = inner.push(s.last());
        assert forall|i: int, j: int|
            #![trigger out[i], out[j]]
            0 <= i < j < out.len() implies incomparable(out[i], out[j]) by {
            if j < inner.len() {
                assert(inner[i] == out[i] && inner[j] == out[j]);
            } else {
                assert(inner.contains(inner[i]));
                if inner[i] == l {
                    assert(incomparable(p[s.len() - 1], p[s.len() as int]));
                } else {
                    let k = choose|k: int| 0 <= k < front.len() && front[k] == inner[i];
                    assert(incomparable(p[k], p[s.len() - 1]));
                }
            }
        }
    }
}

// --------------------------------------------------------------- sorting

pub proof fn lemma_sort_members(numbers: Seq<u32>, s: Seq<Label>)
    ensures
        sort_labels(numbers, s).len() == s.len(),
        forall|x: Label| #[trigger] sort_labels(numbers, s).contains(x) <==> s.contains(x),
    decreases s.len(),
{
    if s.len() > 0 {
        let front = s.drop_last();
        lemma_sort_members(numbers, front);
        lemma_insert_members(numbers, sort_labels(numbers, front), s.last());
        assert(front.push(s.last()) =~= s);
        assert forall|x: Label| #[trigger] sort_labels(numbers, s).contains(x) <==> s.contains(
            x,
        ) by {
            lemma_push_contains(front, s.last(), x);
        }
    }
}

pub proof fn lemma_sort_sums(numbers: Seq<u32>, s: Seq<Label>, limit: nat)
    ensures
        cheap_count(numbers, sort_labels(numbers, s), limit) == cheap_count(numbers, s, limit),
        cheap_hops(numbers, sort_labels(numbers, s), limit) == cheap_hops(numbers, s, limit),
    decreases s.len(),
{
    if s.len() > 0 {
        let front = s.drop_last();
        lemma_sort_sums(numbers, front, limit);
        lemma_insert_sums(numbers, sort_labels(numbers, front), s.last(), limit);
        lemma_cheap_push(numbers, sort_labels(numbers, front), s.last(), limit);
    }
}

pub proof fn lemma_sort_antichain(numbers: Seq<u32>, s: Seq<Label>)
    requires
        antichain(s),
    ensures
        antichain(sort_labels(numbers, s)),
    decreases s.len(),
{
    if s.len() > 0 {
        let front = s.drop_last();
        assert(antichain(front)) by {
            assert forall|i: int, j: int|
                #![trigger front[i], front[j]]
                0 <= i < j < front.len() implies incomparable(front[i], front[j]) by {
                assert(front[i] == s[i] && front[j] == s[j]);
            }
        }
        lemma_sort_antichain(numbers, front);
        lemma_sort_members(numbers, front);
        let sorted = sort_labels(numbers, front);
        let p = sorted.push(s.last());
        assert forall|i: int, j: int|
            #![trigger p[i], p[j]]
            0 <= i < j < p.len() implies incomparable(p[i], p[j]) by {
            if j < sorted.len() {
                assert(sorted[i] == p[i] && sorted[j] == p[j]);
            } else {
                assert(sorted.contains(sorted[i]));
                let k = choose|k: int| 0 <= k < front.len() && front[k] == sorted[i];
                assert(incomparable(s[k], s[s.len() - 1]));
            }
        }
        lemma_insert_antichain(numbers, sorted, s.last());
    }
}

/// Sorted by weight, then by hops.
pub open spec fn sorted_labels(numbers: Seq<u32>, s: Seq<Label>) -> bool {
    forall|i: int, j: int|
        #![trigger s[i], s[j]]
        0 <= i <= j < s.len() ==> label_le(numbers, s[i], s[j])
}

pub proof fn lemma_insert_sorted(numbers: Seq<u32>, s: Seq<Label>, l: Label)
    requires
        sorted_labels(numbers, s),
    ensures
        sorted_labels(numbers, insert_label(numbers, s, l)),
    decreases s.len(),
{
    let out = insert_label(numbers, s, l);
    if s.len() == 0 || label_le(numbers, s.last(), l) {
        assert forall|i: int, j: int|
            #![trigger out[i], out[j]]
            0 <= i <= j < out.len() implies label_le(numbers, out[i], out[j]) by {
            if j < s.len() {
                assert(s[i] == out[i] && s[j] == out[j]);
            } else if i < s.len() {
                assert(label_le(numbers, s[i], s[s.len() - 1]));
            }
        }
    } else {
        let front = s.drop_last();
        assert(sorted_labels(numbers, front)) by {
            assert forall|i: int, j: int|
                #![trigger front[i], front[j]]
                0 <= i <= j < front.len() implies label_le(numbers, front[i], front[j]) by {
                assert(front[i] == s[i] && front[j] == s[j]);
            }
        }
        lemma_insert_sorted(numbers, front, l);
        lemma_insert_members(numbers, front, l);
        let inner = insert_label(numbers, front, l);
        assert forall|i: int, j: int|
            #![trigger out[i], out[j]]
            0 <= i <= j < out.len() implies label_le(numbers, out[i], out[j]) by {
            if j < inner.len() {
                assert(inner[i] == out[i] && inner[j] == out[j]);
            } else if i < inner.len() {
                assert(inner.contains(inner[i]));
                if inner[i] != l {
                    let k = choose|k: int| 0 <= k < front.len() && front[k] == inner[i];
                    assert(label_le(numbers, s[k], s[s.len() - 1]));
                }
            }
        }
    }
}

pub proof fn lemma_sort_sorted(numbers: Seq<u32>, s: Seq<Label>)
    ensures
        sorted_labels(numbers, sort_labels(numbers, s)),
    decreases s.len(),
{
    if s.len() > 0 {
        lemma_sort_sorted(numbers, s.drop_last());
        lemma_insert_sorted(numbers, sort_labels(numbers, s.drop_last()), s.last());
    }
}

/// The label that sorts last: the newcomer, unless an older label sorts strictly
/// behind it.
pub proof fn lemma_sort_last(numbers: Seq<u32>, s: Seq<Label>, l: Label)
    ensures
        ({
            let sorted = sort_labels(numbers, s.push(l));
            let dropped = sorted.last();
            &&& sorted.len() == s.len() + 1
            &&& dropped == l || (s.contains(dropped) && !label_le(numbers, dropped, l))
            &&& forall|i: int| 0 <= i < s.len() ==> label_le(numbers, #[trigger] s[i], dropped)
            &&& label_le(numbers, l, dropped)
        }),
{
    let p = s.push(l);
    let sorted = sort_labels(numbers, p);
    assert(p.drop_last() =~= s);
    lemma_sort_members(numbers, p);
    lemma_sort_members(numbers, s);
    lemma_sort_sorted(numbers, p);
    let before = sort_labels(numbers, s);
    if before.len() > 0 && !label_le(numbers, before.last(), l) {
        assert(sorted.last() == before.last());
        assert(before.contains(before.last()));
    }
    assert forall|i: int| 0 <= i < s.len() implies label_le(
        numbers,
        #[trigger] s[i],
        sorted.last(),
    ) by {
        assert(p[i] == s[i]);
        assert(p.contains(s[i]));
        assert(sorted.contains(s[i]));
        let k = choose|k: int| 0 <= k < sorted.len() && sorted[k] == s[i];
        assert(label_le(numbers, sorted[k], sorted[sorted.len() - 1]));
    }
    assert(p[s.len() as int] == l);
    assert(p.contains(l));
    assert(sorted.contains(l));
    let k = choose|k: int| 0 <= k < sorted.len() && sorted[k] == l;
    assert(label_le(numbers, sorted[k], sorted[sorted.len() - 1]));
}

// --------------------------------------------------------------- pruning

pub proof fn lemma_undominated_members(s: Seq<Label>, set: ZoneSet)
    ensures
        undominated(s, set).len() <= s.len(),
        forall|x: Label| #[trigger]
            undominated(s, set).contains(x) <==> s.contains(x) && !mask_subset(set.0, x.set.0),
    decreases s.len(),
{
    if s.len() > 0 {
        let front = s.drop_last();
        lemma_undominated_members(front, set);
        assert(front.push(s.last()) =~= s);
        assert forall|x: Label| #[trigger] undominated(s, set).contains(x) <==> s.contains(x)
            && !mask_subset(set.0, x.set.0) by {
            lemma_push_contains(front, s.last(), x);
            lemma_push_contains(undominated(front, set), s.last(), x);
        }
    }
}

/// Nothing is pruned where nothing is dominated.
pub proof fn lemma_undominated_all(s: Seq<Label>, set: ZoneSet)
    ensures
        undominated(s, set).len() == s.len() ==> undominated(s, set) == s,
    decreases s.len(),
{
    if s.len() > 0 {
        let front = s.drop_last();
        lemma_undominated_members(front, set);
        lemma_undominated_all(front, set);
        assert(front.push(s.last()) =~= s);
    }
}

pub proof fn lemma_undominated_antichain(s: Seq<Label>, set: ZoneSet)
    requires
        antichain(s),
    ensures
        antichain(undominated(s, set)),
    decreases s.len(),
{
    if s.len() > 0 {
        let front = s.drop_last();
        assert(antichain(front)) by {
            assert forall|i: int, j: int|
                #![trigger front[i], front[j]]
                0 <= i < j < front.len() implies incomparable(front[i], front[j]) by {
                assert(front[i] == s[i] && front[j] == s[j]);
            }
        }
        lemma_undominated_antichain(front, set);
        lemma_undominated_members(front, set);
        let rest = undominated(front, set);
        let out = undominated(s, set);
        assert forall|i: int, j: int|
            #![trigger out[i], out[j]]
            0 <= i < j < out.len() implies incomparable(out[i], out[j]) by {
            if j < rest.len() {
                assert(rest[i] == out[i] && rest[j] == out[j]);
            } else {
                assert(rest.contains(rest[i]));
                let k = choose|k: int| 0 <= k < front.len() && front[k] == rest[i];
                assert(incomparable(s[k], s[s.len() - 1]));
            }
        }
    }
}

/// A label whose zones strictly include `set` costs strictly more than `set`.
pub proof fn lemma_superset_costs_more(numbers: Seq<u32>, a: Label, b: Label)
    requires
        label_indexed(numbers, b),
        mask_subset(a.set.0, b.set.0),
        !mask_subset(b.set.0, a.set.0),
    ensures
        label_cost(numbers, a) < label_cost(numbers, b),
{
    lemma_subset_bits(a.set.0, b.set.0);
    lemma_subset_bits(b.set.0, a.set.0);
    let i = choose|i: int| #[trigger]
        crate::bits::has_bit(b.set.0, i) && !crate::bits::has_bit(a.set.0, i);
    assert(b.set@.contains(i) && !a.set@.contains(i));
    lemma_billed_strict(numbers, a.set@, b.set@, i);
}

/// Pruning what a label dominates leaves everything alone that costs no more
/// than the label does.
pub proof fn lemma_undominated_sums(
    numbers: Seq<u32>,
    s: Seq<Label>,
    cand: Label,
    limit: nat,
)
    requires
        limit <= label_cost(numbers, cand),
        forall|i: int| 0 <= i < s.len() ==> label_indexed(numbers, #[trigger] s[i]),
        forall|i: int| 0 <= i < s.len() ==> !mask_subset((#[trigger] s[i]).set.0, cand.set.0),
    ensures
        cheap_count(numbers, undominated(s, cand.set), limit) == cheap_count(numbers, s, limit),
        cheap_hops(numbers, undominated(s, cand.set), limit) == cheap_hops(numbers, s, limit),
    decreases s.len(),
{
    if s.len() > 0 {
        let front = s.drop_last();
        assert forall|i: int| 0 <= i < front.len() implies label_indexed(
            numbers,
            #[trigger] front[i],
        ) && !mask_subset(front[i].set.0, cand.set.0) by {
            assert(front[i] == s[i]);
        }
        lemma_undominated_sums(numbers, front, cand, limit);
        let last = s[s.len() - 1];
        if mask_subset(cand.set.0, last.set.0) {
            lemma_superset_costs_more(numbers, cand, last);
        } else {
            lemma_cheap_push(numbers, undominated(front, cand.set), last, limit);
        }
    }
}

/// Any label of a frontier that `cand` does not find dominated survives pruning
/// unless it costs strictly more than `cand`.
pub proof fn lemma_cheap_label_survives(
    numbers: Seq<u32>,
    s: Seq<Label>,
    cand: Label,
    l: Label,
)
    requires
        s.contains(l),
        label_indexed(numbers, l),
        !mask_subset(l.set.0, cand.set.0),
        label_cost(numbers, l) <= label_cost(numbers, cand),
    ensures
        undominated(s, cand.set).contains(l),
{
    lemma_undominated_members(s, cand.set);
    if mask_subset(cand.set.0, l.set.0) {
        lemma_superset_costs_more(numbers, cand, l);
    }
}

// ------------------------------------------------------------ truncation

/// The frontier after an undominated label arrived.
pub open spec fn arrival(numbers: Seq<u32>, s: Seq<Label>, cand: Label, cap: nat) -> Seq<Label> {
    truncated(numbers, undominated(s, cand.set).push(cand), cap)
}

/// What a frontier must be for a label to arrive at it.
pub open spec fn arrival_ok(numbers: Seq<u32>, s: Seq<Label>, cand: Label, cap: nat) -> bool {
    &&& antichain(s)
    &&& s.len() <= cap
    &&& label_indexed(numbers, cand)
    &&& forall|i: int| 0 <= i < s.len() ==> label_indexed(numbers, #[trigger] s[i])
    &&& forall|i: int| 0 <= i < s.len() ==> !mask_subset((#[trigger] s[i]).set.0, cand.set.0)
}

proof fn lemma_kept(numbers: Seq<u32>, s: Seq<Label>, cand: Label, cap: nat)
    requires
        arrival_ok(numbers, s, cand, cap),
    ensures
        antichain(undominated(s, cand.set).push(cand)),
        undominated(s, cand.set).push(cand).len() > cap ==> undominated(s, cand.set) == s
            && s.len() == cap,
{
    let und = undominated(s, cand.set);
    let kept = und.push(cand);
    lemma_undominated_members(s, cand.set);
    lemma_undominated_antichain(s, cand.set);
    lemma_undominated_all(s, cand.set);
    assert forall|i: int, j: int|
        #![trigger kept[i], kept[j]]
        0 <= i < j < kept.len() implies incomparable(kept[i], kept[j]) by {
        if j < und.len() {
            assert(und[i] == kept[i] && und[j] == kept[j]);
        } else {
            assert(und.contains(und[i]));
            let k = choose|k: int| 0 <= k < s.len() && s[k] == und[i];
            assert(!mask_subset(s[k].set.0, cand.set.0));
        }
    }
}

pub proof fn lemma_arrival(numbers: Seq<u32>, s: Seq<Label>, cand: Label, cap: nat)
    requires
        arrival_ok(numbers, s, cand, cap),
    ensures
        ({
            let next = arrival(numbers, s, cand, cap);
            let kept = undominated(s, cand.set).push(cand);
            &&& antichain(next)
            &&& next.len() <= cap
            &&& cap > 0 ==> next.len() > 0
            &&& forall|x: Label| #[trigger] next.contains(x) ==> s.contains(x) || x == cand
            &&& kept.len() <= cap ==> next.contains(cand) && forall|x: Label|
                s.contains(x) && !mask_subset(cand.set.0, x.set.0) ==> #[trigger] next.contains(x)
        }),
{
    let und = undominated(s, cand.set);
    let kept = und.push(cand);
    let next = arrival(numbers, s, cand, cap);
    lemma_kept(numbers, s, cand, cap);
    lemma_undominated_members(s, cand.set);
    assert forall|x: Label| #[trigger] kept.contains(x) <==> und.contains(x) || x == cand by {
        lemma_push_contains(und, cand, x);
    }
    if kept.len() > cap {
        let sorted = sort_labels(numbers, kept);
        lemma_sort_members(numbers, kept);
        lemma_sort_antichain(numbers, kept);
        assert forall|i: int, j: int|
            #![trigger next[i], next[j]]
            0 <= i < j < next.len() implies incomparable(next[i], next[j]) by {
            assert(next[i] == sorted[i] && next[j] == sorted[j]);
        }
        assert forall|x: Label| #[trigger] next.contains(x) implies s.contains(x) || x == cand by {
            let k = choose|k: int| 0 <= k < next.len() && next[k] == x;
            assert(sorted[k] == x);
            assert(sorted.contains(x));
        }
    } else {
        assert(kept.contains(cand));
    }
}

/// Labels that cost at most `limit` and are short are safe from a costlier or
/// longer newcomer.
pub proof fn lemma_arrival_keeps(
    numbers: Seq<u32>,
    s: Seq<Label>,
    cand: Label,
    cap: nat,
    l: Label,
    limit: nat,
)
    requires
        arrival_ok(numbers, s, cand, cap),
        s.contains(l),
        label_cost(numbers, l) <= limit <= label_cost(numbers, cand),
        l.hops < cand.hops,
    ensures
        arrival(numbers, s, cand, cap).contains(l),
{
    let und = undominated(s, cand.set);
    let kept = und.push(cand);
    lemma_kept(numbers, s, cand, cap);
    let i = choose|i: int| 0 <= i < s.len() && s[i] == l;
    assert(label_indexed(numbers, s[i]));
    lemma_cheap_label_survives(numbers, s, cand, l);
    lemma_push_contains(und, cand, l);
    if kept.len() > cap {
        let sorted = sort_labels(numbers, kept);
        lemma_sort_last(numbers, und, cand);
        lemma_sort_members(numbers, kept);
        assert(sorted.contains(l));
        let k = choose|k: int| 0 <= k < sorted.len() && sorted[k] == l;
        assert(k < cap) by {
            if k == cap {
                assert(sorted.last() == l);
            }
        }
        assert(sorted.take(cap as int)[k] == l);
    }
}

/// How an arrival changes the number and the hops of the labels that cost at most
/// `limit`, where the newcomer costs at least that.
pub proof fn lemma_arrival_sums(
    numbers: Seq<u32>,
    s: Seq<Label>,
    cand: Label,
    cap: nat,
    limit: nat,
)
    requires
        arrival_ok(numbers, s, cand, cap),
        limit <= label_cost(numbers, cand),
    ensures
        ({
            let next = arrival(numbers, s, cand, cap);
            let c0 = cheap_count(numbers, s, limit);
            let c1 = cheap_count(numbers, next, limit);
            let h0 = cheap_hops(numbers, s, limit);
            let h1 = cheap_hops(numbers, next, limit);
            if next.contains(cand) && label_cost(numbers, cand) == limit {
                c1 == c0 + 1 || (c1 == c0 && h1 < h0)
            } else {
                c1 == c0 && h1 == h0
            }
        }),
{
    let und = undominated(s, cand.set);
    let kept = und.push(cand);
    let next = arrival(numbers, s, cand, cap);
    lemma_kept(numbers, s, cand, cap);
    lemma_undominated_sums(numbers, s, cand, limit);
    lemma_cheap_push(numbers, und, cand, limit);
    lemma_arrival(numbers, s, cand, cap);
    if kept.len() > cap {
        let sorted = sort_labels(numbers, kept);
        lemma_sort_last(numbers, und, cand);
        lemma_sort_members(numbers, kept);
        lemma_sort_sums(numbers, kept, limit);
        lemma_sort_antichain(numbers, kept);
        assert(next =~= sorted.drop_last());
        let dropped = sorted.last();
        assert(next.push(dropped) =~= sorted);
        lemma_cheap_push(numbers, next, dropped, limit);
        if dropped == cand {
            if next.contains(cand) {
                let k = choose|k: int| 0 <= k < next.len() && next[k] == cand;
                assert(sorted[k] == cand);
                assert(incomparable(sorted[k], sorted[sorted.len() - 1]));
                lemma_subset_order(cand.set.0, cand.set.0, cand.set.0);
            }
        } else {
            assert(kept[und.len() as int] == cand);
            assert(kept.contains(cand));
            assert(sorted.contains(cand));
            let k = choose|k: int| 0 <= k < sorted.len() && sorted[k] == cand;
            assert(next[k] == cand);
        }
    }
}

} // verus!
