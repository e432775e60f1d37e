//! Stable sorting, as the order in which to take the items of a list.

use vstd::prelude::*;

verus! {

/// Items that can be sorted: a strict order under which items may be equal in
/// rank without being the same.
pub trait Ranked {
    spec fn ranks_before(&self, other: &Self) -> bool;

    proof fn lemma_ranking(a: &Self, b: &Self, c: &Self)
        ensures
            a.ranks_before(b) ==> !b.ranks_before(a),
            a.ranks_before(b) && b.ranks_before(c) ==> a.ranks_before(c),
            !a.ranks_before(b) && !b.ranks_before(c) ==> !a.ranks_before(c),
    ;

    fn is_before(&self, other: &Self) -> (r: bool)
        ensures
            r == self.ranks_before(other),
    ;
}

/// Whether item `a` comes before item `b` in a stable sort: by rank, and in their
/// old order where neither ranks before the other.
pub open spec fn placed_before<T: Ranked>(items: Seq<T>, a: int, b: int) -> bool {
    items[a].ranks_before(&items[b]) || (!items[b].ranks_before(&items[a]) && a < b)
}

/// Whether `order` lists each of the items `lo .. hi` once, as a stable sort
/// places them.
pub open spec fn orders_range<T: Ranked>(
    items: Seq<T>,
    lo: int,
    hi: int,
    order: Seq<usize>,
) -> bool {
    &&& order.len() == hi - lo
    &&& order.no_duplicates()
    &&& forall|i: int| 0 <= i < order.len() ==> lo <= #[trigger] order[i] < hi
    &&& forall|i: int, j: int|
        #![trigger order[i], order[j]]
        0 <= i < j < order.len() ==> placed_before(items, order[i] as int, order[j] as int)
}

/// Whether `order` is the stable sort of a whole list.
pub open spec fn is_order<T: Ranked>(items: Seq<T>, order: Seq<usize>) -> bool {
    orders_range(items, 0, items.len() as int, order)
}

/// The items taken in a given order.
pub open spec fn taken<T>(items: Seq<T>, order: Seq<usize>) -> Seq<T> {
    Seq::new(order.len(), |i: int| items[order[i] as int])
}

/// A list in sorted order.
pub open spec fn sorted<T: Ranked>(items: Seq<T>) -> Seq<T> {
    taken(items, choose|order: Seq<usize>| is_order(items, order))
}

/// Whether `order` takes the numbers below `n` as a stable sort under `lt` does:
/// each once, and two that `lt` does not tell apart in their old order.
pub open spec fn sorts(n: nat, lt: spec_fn(int, int) -> bool, order: Seq<usize>) -> bool {
    &&& order.len() == n
    &&& order.no_duplicates()
    &&& forall|i: int| 0 <= i < order.len() ==> #[trigger] order[i] < n
    &&& forall|i: int, j: int|
        #![trigger order[i], order[j]]
        0 <= i < j < order.len() ==> lt(order[i] as int, order[j] as int) || (!lt(
            order[j] as int,
            order[i] as int,
        ) && order[i] < order[j])
}

pub proof fn lemma_placed_transitive<T: Ranked>(items: Seq<T>, a: int, b: int, c: int)
    requires
        placed_before(items, a, b),
        placed_before(items, b, c),
    ensures
        placed_before(items, a, c),
{
    T::lemma_ranking(&items[a], &items[b], &items[c]);
    T::lemma_ranking(&items[a], &items[c], &items[b]);
    T::lemma_ranking(&items[b], &items[a], &items[c]);
    T::lemma_ranking(&items[c], &items[b], &items[a]);
    T::lemma_ranking(&items[b], &items[c], &items[a]);
}

/// An order lists every item.
pub proof fn lemma_order_complete<T: Ranked>(items: Seq<T>, order: Seq<usize>, k: int)
    requires
        is_order(items, order),
        0 <= k < items.len(),
    ensures
        exists|i: int| 0 <= i < order.len() && #[trigger] order[i] == k,
{
    let n = items.len() as int;
    let wide = Seq::new(order.len(), |i: int| order[i] as int);
    assert(wide.no_duplicates()) by {
        assert forall|i: int, j: int| 0 <= i < wide.len() && 0 <= j < wide.len() && i != j implies
            wide[i] != wide[j] by {
            assert(order[i] != order[j]);
        }
    }
    wide.unique_seq_to_set();
    vstd::set_lib::lemma_int_range(0, n);
    let all = vstd::set_lib::set_int_range(0, n);
    assert(wide.to_set().subset_of(all)) by {
        assert forall|x: int| #[trigger] wide.to_set().contains(x) implies all.contains(x) by {
            let i = choose|i: int| 0 <= i < wide.len() && wide[i] == x;
            assert(order[i] == x);
        }
    }
    vstd::set_lib::lemma_subset_equality(wide.to_set(), all);
    assert(wide.to_set().contains(k));
    let i = choose|i: int| 0 <= i < wide.len() && wide[i] == k;
    assert(order[i] == k);
}

/// Where a new item at the end of a list goes among those already in order.
proof fn lemma_place_of_last<T: Ranked>(items: Seq<T>, order: Seq<usize>) -> (p: int)
    requires
        items.len() > 0,
        forall|i: int| 0 <= i < order.len() ==> #[trigger] order[i] < items.len() - 1,
        forall|i: int, j: int|
            #![trigger order[i], order[j]]
            0 <= i < j < order.len() ==> placed_before(items, order[i] as int, order[j] as int),
    ensures
        0 <= p <= order.len(),
        forall|i: int|
            0 <= i < p ==> !items.last().ranks_before(&items[#[trigger] order[i] as int]),
        forall|i: int|
            p <= i < order.len() ==> items.last().ranks_before(&items[#[trigger] order[i] as int]),
    decreases order.len(),
{
    if order.len() == 0 {
        0
    } else {
        let last = order[order.len() - 1] as int;
        if items.last().ranks_before(&items[last]) {
            let front = order.drop_last();
            let p = lemma_place_of_last(items, front);
            assert forall|i: int| 0 <= i < order.len() implies (items.last().ranks_before(
                &items[#[trigger] order[i] as int],
            ) <==> p <= i) by {
                if i < front.len() {
                    assert(front[i] == order[i]);
                }
            }
            p
        } else {
            assert forall|i: int| 0 <= i < order.len() implies !items.last().ranks_before(
                &items[#[trigger] order[i] as int],
            ) by {
                if i < order.len() - 1 {
                    let x = order[i] as int;
                    assert(placed_before(items, x, last));
                    T::lemma_ranking(&items[x], &items[last], &items[x]);
                    T::lemma_ranking(&items.last(), &items[last], &items[x]);
                }
            }
            order.len() as int
        }
    }
}

/// Every list can be sorted.
pub proof fn lemma_order_exists<T: Ranked>(items: Seq<T>) -> (order: Seq<usize>)
    requires
        items.len() <= usize::MAX,
    ensures
        is_order(items, order),
    decreases items.len(),
{
    if items.len() == 0 {
        Seq::empty()
    } else {
        let front = items.drop_last();
        let n = items.len() - 1;
        let rest = lemma_order_exists(front);
        assert forall|i: int, j: int|
            #![trigger rest[i], rest[j]]
            0 <= i < j < rest.len() implies placed_before(items, rest[i] as int, rest[j] as int) by {
            assert(placed_before(front, rest[i] as int, rest[j] as int));
            assert(rest[i] < n && rest[j] < n);
        }
        let p = lemma_place_of_last(items, rest);
        let order = rest.insert(p, n as usize);
        assert forall|i: int| 0 <= i < order.len() implies #[trigger] order[i] == (if i < p {
            rest[i]
        } else if i == p {
            n as usize
        } else {
            rest[i - 1]
        }) by {}
        assert forall|i: int, j: int|
            #![trigger order[i], order[j]]
            0 <= i < j < order.len() implies placed_before(
            items,
            order[i] as int,
            order[j] as int,
        ) && order[i] != order[j] by {
            let a = if i < p {
                i
            } else {
                i - 1
            };
            let b = if j < p {
                j
            } else {
                j - 1
            };
            if i != p && j != p {
                assert(order[i] == rest[a] && order[j] == rest[b]);
            } else if i == p {
                assert(order[j] == rest[b]);
            } else {
                assert(order[i] == rest[a]);
                assert(!items.last().ranks_before(&items[rest[a] as int]));
            }
        }
        order
    }
}

/// Two stable sorts of one list take its items in the same order.
pub proof fn law_sort_order_unique<T: Ranked>(items: Seq<T>, a: Seq<usize>, b: Seq<usize>)
    requires
        is_order(items, a),
        is_order(items, b),
    ensures
        a == b,
{
    assert forall|i: int| 0 <= i < a.len() implies #[trigger] a[i] == b[i] by {
        lemma_same_place(items, a, b, i);
    }
    assert(a =~= b);
}

proof fn lemma_same_place<T: Ranked>(items: Seq<T>, a: Seq<usize>, b: Seq<usize>, i: int)
    requires
        is_order(items, a),
        is_order(items, b),
        0 <= i < a.len(),
    ensures
        a[i] == b[i],
    decreases i,
{
    assert forall|j: int| 0 <= j < i implies a[j] == b[j] by {
        lemma_same_place(items, a, b, j);
    }
    if a[i] != b[i] {
        lemma_order_complete(items, b, a[i] as int);
        let p = choose|p: int| 0 <= p < b.len() && #[trigger] b[p] == a[i];
        lemma_order_complete(items, a, b[i] as int);
        let q = choose|q: int| 0 <= q < a.len() && #[trigger] a[q] == b[i];
        if p < i {
            assert(a[p] == b[p]);
            assert(false);
        }
        if q < i {
            assert(a[q] == b[q]);
            assert(false);
        }
        assert(placed_before(items, b[i] as int, b[p] as int));
        assert(placed_before(items, a[i] as int, a[q] as int));
        T::lemma_ranking(&items[a[i] as int], &items[b[i] as int], &items[a[i] as int]);
        T::lemma_ranking(&items[b[i] as int], &items[a[i] as int], &items[b[i] as int]);
    }
}

/// Merges the orders of two neighbouring ranges.
fn merge<T: Ranked>(
    items: &Vec<T>,
    lo: usize,
    mid: usize,
    hi: usize,
    left: &Vec<usize>,
    right: &Vec<usize>,
) -> (r: Vec<usize>)
    requires
        lo <= mid <= hi <= items@.len(),
        orders_range(items@, lo as int, mid as int, left@),
        orders_range(items@, mid as int, hi as int, right@),
    ensures
        orders_range(items@, lo as int, hi as int, r@),
{
    let mut out: Vec<usize> = Vec::new();
    let mut i: usize = 0;
    let mut j: usize = 0;
    while i < left.len() || j < right.len()
        invariant
            lo <= mid <= hi <= items@.len(),
            orders_range(items@, lo as int, mid as int, left@),
            orders_range(items@, mid as int, hi as int, right@),
            i <= left@.len(),
            j <= right@.len(),
            out@.len() == i + j,
            out@.no_duplicates(),
            forall|k: int| 0 <= k < out@.len() ==> lo <= #[trigger] out@[k] < hi,
            forall|k: int, l: int|
                #![trigger out@[k], out@[l]]
                0 <= k < l < out@.len() ==> placed_before(items@, out@[k] as int, out@[l] as int),
            forall|k: int, l: int|
                #![trigger out@[k], left@[l]]
                0 <= k < out@.len() && i <= l < left@.len() ==> placed_before(
                    items@,
                    out@[k] as int,
                    left@[l] as int,
                ) && out@[k] != left@[l],
            forall|k: int, l: int|
                #![trigger out@[k], right@[l]]
                0 <= k < out@.len() && j <= l < right@.len() ==> placed_before(
                    items@,
                    out@[k] as int,
                    right@[l] as int,
                ) && out@[k] != right@[l],
        decreases left@.len() - i + right@.len() - j,
    {
        let from_left = if i == left.len() {
            false
        } else if j == right.len() {
            true
        } else {
            !items[right[j]].is_before(&items[left[i]])
        };
        let ghost before = out@;
        if from_left {
            let x: usize = left[i];
            out.push(x);
            proof {
                assert forall|l: int| j <= l < right@.len() implies placed_before(
                    items@,
                    x as int,
                    #[trigger] right@[l] as int,
                ) && x != right@[l] by {
                    assert(placed_before(items@, x as int, right@[j as int] as int));
                    if l > j {
                        lemma_placed_transitive(
                            items@,
                            x as int,
                            right@[j as int] as int,
                            right@[l] as int,
                        );
                    }
                }
                assert forall|k: int, l: int|
                    #![trigger out@[k], right@[l]]
                    0 <= k < out@.len() && j <= l < right@.len() implies placed_before(
                    items@,
                    out@[k] as int,
                    right@[l] as int,
                ) && out@[k] != right@[l] by {
                    if k < before.len() {
                        assert(out@[k] == before[k]);
                    }
                }
                assert forall|k: int, l: int|
                    #![trigger out@[k], left@[l]]
                    0 <= k < out@.len() && i + 1 <= l < left@.len() implies placed_before(
                    items@,
                    out@[k] as int,
                    left@[l] as int,
                ) && out@[k] != left@[l] by {
                    if k < before.len() {
                        assert(out@[k] == before[k]);
                    }
                }
            }
            i = i + 1;
        } else {
            let x: usize = right[j];
            out.push(x);
            proof {
                assert forall|l: int| i <= l < left@.len() implies placed_before(
                    items@,
                    x as int,
                    #[trigger] left@[l] as int,
                ) && x != left@[l] by {
                    assert(placed_before(items@, x as int, left@[i as int] as int));
                    if l > i {
                        lemma_placed_transitive(
                            items@,
                            x as int,
                            left@[i as int] as int,
                            left@[l] as int,
                        );
                    }
                }
                assert forall|k: int, l: int|
                    #![trigger out@[k], left@[l]]
                    0 <= k < out@.len() && i <= l < left@.len() implies placed_before(
                    items@,
                    out@[k] as int,
                    left@[l] as int,
                ) && out@[k] != left@[l] by {
                    if k < before.len() {
                        assert(out@[k] == before[k]);
                    }
                }
                assert forall|k: int, l: int|
                    #![trigger out@[k], right@[l]]
                    0 <= k < out@.len() && j + 1 <= l < right@.len() implies placed_before(
                    items@,
                    out@[k] as int,
                    right@[l] as int,
                ) && out@[k] != right@[l] by {
                    if k < before.len() {
                        assert(out@[k] == before[k]);
                    }
                }
            }
            j = j + 1;
        }
    }
    out
}

/// The stable sort of the items `lo .. hi`.
fn order_range<T: Ranked>(items: &Vec<T>, lo: usize, hi: usize) -> (r: Vec<usize>)
    requires
        lo <= hi <= items@.len(),
    ensures
        orders_range(items@, lo as int, hi as int, r@),
    decreases hi - lo,
{
    if hi - lo <= 1 {
        let mut out: Vec<usize> = Vec::new();
        if lo < hi {
            out.push(lo);
        }
        return out;
    }
    let mid: usize = lo + (hi - lo) / 2;
    let left = order_range(items, lo, mid);
    let right = order_range(items, mid, hi);
    merge(items, lo, mid, hi, &left, &right)
}

/// The order in which a stable sort takes the items of a list.
pub fn sort_order<T: Ranked>(items: &Vec<T>) -> (r: Vec<usize>)
    ensures
        is_order(items@, r@),
        taken(items@, r@) == sorted(items@),
{
    let r = order_range(items, 0, items.len());
    proof {
        assert(is_order(items@, r@));
        let other = choose|order: Seq<usize>| is_order(items@, order);
        law_sort_order_unique(items@, r@, other);
    }
    r
}

/// Two lists of the same items, no two of which rank equal, are sorted alike.
pub proof fn law_sorting_forgets_order<T: Ranked>(a: Seq<T>, b: Seq<T>)
    requires
        a.len() <= usize::MAX,
        a.to_multiset() == b.to_multiset(),
        forall|i: int, j: int|
            #![trigger a[i], a[j]]
            0 <= i < a.len() && 0 <= j < a.len() && i != j ==> a[i].ranks_before(&a[j])
                || a[j].ranks_before(&a[i]),
    ensures
        sorted(a) == sorted(b),
{
    broadcast use vstd::seq_lib::group_to_multiset_ensures;

    assert(a.len() == a.to_multiset().len());
    assert(b.len() == b.to_multiset().len());
    let order_a = lemma_order_exists(a);
    let order_b = lemma_order_exists(b);
    let x = taken(a, order_a);
    let y = taken(b, order_b);
    lemma_taken_multiset(a, order_a);
    lemma_taken_multiset(b, order_b);
    assert forall|i: int, j: int| #![trigger x[i], x[j]] 0 <= i < j < x.len() implies x[i]
        .ranks_before(&x[j]) by {
        assert(placed_before(a, order_a[i] as int, order_a[j] as int));
        assert(order_a[i] != order_a[j]);
        let p = order_a[i] as int;
        let q = order_a[j] as int;
        assert(a[p].ranks_before(&a[q]) || a[q].ranks_before(&a[p]));
    }
    assert forall|i: int, j: int| #![trigger y[i], y[j]] 0 <= i < j < y.len() implies !y[j]
        .ranks_before(&y[i]) by {
        assert(placed_before(b, order_b[i] as int, order_b[j] as int));
        T::lemma_ranking(&y[i], &y[j], &y[i]);
    }
    lemma_sorted_same(x, y);
    let pick_a = choose|order: Seq<usize>| is_order(a, order);
    let pick_b = choose|order: Seq<usize>| is_order(b, order);
    law_sort_order_unique(a, order_a, pick_a);
    law_sort_order_unique(b, order_b, pick_b);
}

proof fn lemma_sorted_same<T: Ranked>(x: Seq<T>, y: Seq<T>)
    requires
        x.to_multiset() == y.to_multiset(),
        forall|i: int, j: int|
            #![trigger x[i], x[j]]
            0 <= i < j < x.len() ==> x[i].ranks_before(&x[j]),
        forall|i: int, j: int|
            #![trigger y[i], y[j]]
            0 <= i < j < y.len() ==> !y[j].ranks_before(&y[i]),
    ensures
        x == y,
    decreases x.len(),
{
    broadcast use vstd::seq_lib::group_to_multiset_ensures;

    assert(x.len() == x.to_multiset().len());
    assert(y.len() == y.to_multiset().len());
    if x.len() == 0 {
        assert(x =~= y);
    } else {
        // The last of each list ranks before nothing in the other.
        let a = x.last();
        let b = y.last();
        assert(x.contains(a));
        assert(x.to_multiset().contains(a));
        assert(y.contains(a));
        let p = choose|p: int| 0 <= p < y.len() && y[p] == a;
        assert(y.contains(b));
        assert(y.to_multiset().contains(b));
        assert(x.contains(b));
        let q = choose|q: int| 0 <= q < x.len() && x[q] == b;
        if q < x.len() - 1 {
            assert(x[q].ranks_before(&x[x.len() - 1]));
            if p < y.len() - 1 {
                assert(!y[y.len() - 1].ranks_before(&y[p]));
            } else {
                T::lemma_ranking(&a, &b, &a);
                assert(a == b);
                T::lemma_ranking(&x[q], &x[x.len() - 1], &x[q]);
            }
            assert(false);
        }
        assert(a == b);
        let x0 = x.drop_last();
        let y0 = y.drop_last();
        assert(x0.push(a) =~= x);
        assert(y0.push(a) =~= y);
        assert(x.to_multiset() =~= x0.to_multiset().insert(a));
        assert(y.to_multiset() =~= y0.to_multiset().insert(a));
        assert(x0.to_multiset() =~= x.to_multiset().remove(a));
        assert(y0.to_multiset() =~= y.to_multiset().remove(a));
        lemma_sorted_same(x0, y0);
    }
}

/// Whether a list never falls.
pub open spec fn never_falls(s: Seq<u64>) -> bool {
    forall|i: int, j: int| #![trigger s[i], s[j]] 0 <= i <= j < s.len() ==> s[i] <= s[j]
}

impl Ranked for u64 {
    open spec fn ranks_before(&self, other: &u64) -> bool {
        *self < *other
    }

    proof fn lemma_ranking(a: &u64, b: &u64, c: &u64) {
    }

    fn is_before(&self, other: &u64) -> bool {
        *self < *other
    }
}

/// Sorts numbers, the smallest first.
pub fn sorted_numbers(items: &Vec<u64>) -> (r: Vec<u64>)
    ensures
        r@.to_multiset() == items@.to_multiset(),
        never_falls(r@),
        forall|i: int, j: int| #![trigger r@[i], r@[j]] 0 <= i < j < r@.len() ==> r@[j] >= r@[i],
{
    let order = sort_order(items);
    let mut out: Vec<u64> = Vec::new();
    let mut i: usize = 0;
    while i < order.len()
        invariant
            i <= order@.len(),
            is_order(items@, order@),
            out@ == taken(items@, order@).take(i as int),
        decreases order@.len() - i,
    {
        out.push(items[order[i]]);
        assert(out@ =~= taken(items@, order@).take(i + 1));
        i = i + 1;
    }
    assert(out@ =~= taken(items@, order@));
    proof {
        lemma_taken_multiset(items@, order@);
    }
    out
}

/// Taking the items of a list in another order loses none and adds none.
pub proof fn lemma_taken_multiset<T: Ranked>(items: Seq<T>, order: Seq<usize>)
    requires
        is_order(items, order),
    ensures
        taken(items, order).to_multiset() == items.to_multiset(),
{
    lemma_perm_multiset(items, order);
}

/// The same for an order that takes each place once.
pub proof fn lemma_perm_multiset<T>(items: Seq<T>, order: Seq<usize>)
    requires
        order.len() == items.len(),
        order.no_duplicates(),
        forall|i: int| 0 <= i < order.len() ==> #[trigger] order[i] < items.len(),
    ensures
        taken(items, order).to_multiset() == items.to_multiset(),
    decreases items.len(),
{
    broadcast use vstd::seq_lib::group_to_multiset_ensures;

    if items.len() == 0 {
        assert(taken(items, order) =~= items);
    } else {
        // Take out the place of the last item, and relabel nothing else.
        let n = items.len() as int;
        let wide = Seq::new(order.len(), |i: int| order[i] as int);
        assert(wide.no_duplicates()) by {
            assert forall|i: int, j: int| 0 <= i < wide.len() && 0 <= j < wide.len() && i != j
                implies wide[i] != wide[j] by {
                assert(order[i] != order[j]);
            }
        }
        wide.unique_seq_to_set();
        vstd::set_lib::lemma_int_range(0, n);
        let all = vstd::set_lib::set_int_range(0, n);
        assert(wide.to_set().subset_of(all)) by {
            assert forall|x: int| #[trigger] wide.to_set().contains(x) implies all.contains(x) by {
                let i = choose|i: int| 0 <= i < wide.len() && wide[i] == x;
                assert(order[i] == x);
            }
        }
        vstd::set_lib::lemma_subset_equality(wide.to_set(), all);
        assert(wide.to_set().contains(n - 1));
        let p = choose|p: int| 0 <= p < wide.len() && wide[p] == n - 1;
        assert(order[p] == n - 1);
        let rest = order.remove(p);
        let front = items.drop_last();
        assert forall|i: int| 0 <= i < rest.len() implies #[trigger] rest[i] < front.len() by {
            if i < p {
                assert(rest[i] == order[i]);
                assert(order[i] != order[p]);
            } else {
                assert(rest[i] == order[i + 1]);
                assert(order[i + 1] != order[p]);
            }
        }
        assert(rest.no_duplicates()) by {
            assert forall|i: int, j: int| 0 <= i < rest.len() && 0 <= j < rest.len() && i != j
                implies rest[i] != rest[j] by {
                let a = if i < p {
                    i
                } else {
                    i + 1
                };
                let b = if j < p {
                    j
                } else {
                    j + 1
                };
                assert(rest[i] == order[a] && rest[j] == order[b]);
            }
        }
        lemma_perm_multiset(front, rest);
        let whole = taken(items, order);
        assert(taken(front, rest) =~= whole.remove(p));
        assert(whole[p] == items.last());
        assert(whole.remove(p).to_multiset() =~= whole.to_multiset().remove(whole[p]));
        assert(front.push(items.last()) =~= items);
        assert(items.to_multiset() =~= front.to_multiset().insert(items.last()));
        assert(whole.to_multiset().contains(whole[p])) by {
            assert(whole.contains(whole[p]));
        }
        assert(whole.to_multiset() =~= whole.to_multiset().remove(whole[p]).insert(whole[p]));
    }
}

/// What sorting does: the items come out in an order in which none ranks before an
/// earlier one, none is lost and none added, and two that do not rank apart keep
/// their order. `order` gives the place each one had.
pub proof fn law_sorted_items_rank_in_order<T: Ranked>(items: Seq<T>) -> (order: Seq<usize>)
    requires
        items.len() <= usize::MAX,
    ensures
        sorted(items).to_multiset() == items.to_multiset(),
        sorted(items).len() == items.len(),
        order.len() == items.len(),
        order.no_duplicates(),
        forall|i: int|
            0 <= i < order.len() ==> (#[trigger] order[i]) < items.len() && sorted(items)[i]
                == items[order[i] as int],
        forall|i: int, j: int|
            #![trigger order[i], order[j]]
            0 <= i < j < order.len() ==> {
                &&& !sorted(items)[j].ranks_before(&sorted(items)[i])
                &&& !sorted(items)[i].ranks_before(&sorted(items)[j]) ==> order[i] < order[j]
            },
{
    let own = lemma_order_exists(items);
    let order = choose|order: Seq<usize>| is_order(items, order);
    assert(is_order(items, own));
    lemma_taken_multiset(items, order);
    assert forall|i: int, j: int|
        #![trigger order[i], order[j]]
        0 <= i < j < order.len() implies {
        &&& !sorted(items)[j].ranks_before(&sorted(items)[i])
        &&& !sorted(items)[i].ranks_before(&sorted(items)[j]) ==> order[i] < order[j]
    } by {
        assert(placed_before(items, order[i] as int, order[j] as int));
        let a = items[order[i] as int];
        let b = items[order[j] as int];
        T::lemma_ranking(&a, &b, &a);
    }
    order
}

} // verus!
