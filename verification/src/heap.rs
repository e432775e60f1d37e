//! A binary min-heap of search-queue entries.
//!
//! Entries carry their whole ordering key, so which entry comes out next
//! depends on the contents alone and every run of a search repeats exactly.

use vstd::multiset::Multiset;
use vstd::prelude::*;

verus! {

/// A queued unit of work, ordered by its fields from left to right.
#[derive(Clone, Copy, PartialEq, Eq, Debug, Structural)]
pub struct Entry {
    pub cost: u128,
    pub hops: u64,
    pub node: u64,
    pub tag: u64,
}

/// Whether `a` comes out of the queue no later than `b`.
pub open spec fn entry_le(a: Entry, b: Entry) -> bool {
    a.cost < b.cost || (a.cost == b.cost && (a.hops < b.hops || (a.hops == b.hops && (a.node
        < b.node || (a.node == b.node && a.tag <= b.tag)))))
}

fn not_after(a: &Entry, b: &Entry) -> (r: bool)
    ensures
        r == entry_le(*a, *b),
{
    a.cost < b.cost || (a.cost == b.cost && (a.hops < b.hops || (a.hops == b.hops && (a.node
        < b.node || (a.node == b.node && a.tag <= b.tag)))))
}

spec fn heap_ordered(s: Seq<Entry>) -> bool {
    forall|i: int| 0 < i < s.len() ==> entry_le(s[(i - 1) / 2], #[trigger] s[i])
}

/// A priority queue; its view is the multiset of queued entries.
pub struct MinHeap {
    items: Vec<Entry>,
}

impl View for MinHeap {
    type V = Multiset<Entry>;

    closed spec fn view(&self) -> Multiset<Entry> {
        self.items@.to_multiset()
    }
}

impl MinHeap {
    pub closed spec fn wf(&self) -> bool {
        heap_ordered(self.items@)
    }

    pub fn new() -> (r: MinHeap)
        ensures
            r.wf(),
            r@ == Multiset::<Entry>::empty(),
    {
        let items: Vec<Entry> = Vec::new();
        proof {
            vstd::seq_lib::to_multiset_len(items@);
            vstd::multiset::lemma_multiset_empty_len(items@.to_multiset());
        }
        MinHeap { items }
    }

    pub fn push(&mut self, e: Entry)
        requires
            old(self).wf(),
        ensures
            final(self).wf(),
            final(self)@ == old(self)@.insert(e),
    {
        proof {
            vstd::seq_lib::to_multiset_build(self.items@, e);
        }
        self.items.push(e);
        let mut i: usize = self.items.len() - 1;
        let ghost whole = self.items@.to_multiset();
        while i > 0
            invariant
                i < self.items@.len(),
                self.items@.to_multiset() == whole,
                forall|j: int|
                    0 < j < self.items@.len() && j != i ==> entry_le(
                        self.items@[(j - 1) / 2],
                        #[trigger] self.items@[j],
                    ),
                forall|c: int|
                    0 < c < self.items@.len() && i > 0 && (c - 1) / 2 == i ==> entry_le(
                        self.items@[(i - 1) / 2],
                        #[trigger] self.items@[c],
                    ),
            ensures
                heap_ordered(self.items@),
                self.items@.to_multiset() == whole,
            decreases i,
        {
            let parent: usize = (i - 1) / 2;
            if not_after(&self.items[parent], &self.items[i]) {
                break;
            }
            let ghost before = self.items@;
            let below = self.items[i];
            let above = self.items[parent];
            self.items.set(i, above);
            self.items.set(parent, below);
            proof {
                lemma_swap_keeps_multiset(before, i as int, parent as int);
                assert forall|j: int|
                    0 < j < self.items@.len() && j != parent implies entry_le(
                    self.items@[(j - 1) / 2],
                    #[trigger] self.items@[j],
                ) by {
                    assert(entry_le(before[parent as int], before[parent as int]));
                    if j == i {
                    } else if (j - 1) / 2 == i {
                        assert(before[j] == self.items@[j]);
                    } else if (j - 1) / 2 == parent {
                        assert(entry_le(before[(j - 1) / 2], before[j]));
                    } else {
                        assert(entry_le(before[(j - 1) / 2], before[j]));
                    }
                }
                assert forall|c: int|
                    0 < c < self.items@.len() && parent > 0 && (c - 1) / 2
                        == parent implies entry_le(
                    self.items@[(parent - 1) / 2],
                    #[trigger] self.items@[c],
                ) by {
                    assert(entry_le(before[(parent - 1) / 2], before[parent as int]));
                    if c != i {
                        assert(entry_le(before[(c - 1) / 2], before[c]));
                    }
                }
            }
            i = parent;
        }
    }

    /// Takes out the entry that comes first.
    pub fn pop(&mut self) -> (r: Option<Entry>)
        requires
            old(self).wf(),
        ensures
            final(self).wf(),
            match r {
                Some(e) => {
                    &&& old(self)@.contains(e)
                    &&& final(self)@ == old(self)@.remove(e)
                    &&& forall|x: Entry| #[trigger] old(self)@.contains(x) ==> entry_le(e, x)
                },
                None => old(self)@.len() == 0 && final(self)@ == old(self)@,
            },
    {
        let ghost start = self.items@;
        proof {
            vstd::seq_lib::to_multiset_len(start);
        }
        if self.items.len() == 0 {
            return None;
        }
        let first = self.items[0];
        proof {
            lemma_root_is_least(start);
            assert(start.contains(first));
            vstd::seq_lib::to_multiset_contains(start, first);
            assert forall|x: Entry| #[trigger] start.to_multiset().contains(x) implies entry_le(
                first,
                x,
            ) by {
                vstd::seq_lib::to_multiset_contains(start, x);
                let k = choose|k: int| 0 <= k < start.len() && start[k] == x;
                assert(entry_le(start[0], start[k]));
            }
        }
        let last = self.items.pop().unwrap();
        if self.items.len() == 0 {
            proof {
                vstd::seq_lib::to_multiset_remove(start, 0);
                assert(start.remove(0) =~= self.items@);
            }
            return Some(first);
        }
        self.items.set(0, last);
        proof {
            lemma_replace_root(start, self.items@);
        }
        self.sift_down();
        Some(first)
    }

    fn sift_down(&mut self)
        requires
            old(self).items@.len() > 0,
            forall|j: int|
                2 < j < old(self).items@.len() ==> entry_le(
                    old(self).items@[(j - 1) / 2],
                    #[trigger] old(self).items@[j],
                ),
        ensures
            final(self).wf(),
            final(self)@ == old(self)@,
    {
        let n: usize = self.items.len();
        let mut i: usize = 0;
        let ghost whole = self.items@.to_multiset();
        while i < n / 2
            invariant
                n == self.items@.len(),
                i < n,
                self.items@.to_multiset() == whole,
                forall|j: int|
                    0 < j < n && (j - 1) / 2 != i ==> entry_le(
                        self.items@[(j - 1) / 2],
                        #[trigger] self.items@[j],
                    ),
                forall|c: int|
                    0 < c < n && i > 0 && (c - 1) / 2 == i ==> entry_le(
                        self.items@[(i - 1) / 2],
                        #[trigger] self.items@[c],
                    ),
            ensures
                heap_ordered(self.items@),
                self.items@.to_multiset() == whole,
            decreases n - i,
        {
            let left: usize = 2 * i + 1;
            let mut small: usize = left;
            if left + 1 < n && !not_after(&self.items[left], &self.items[left + 1]) {
                small = left + 1;
            }
            if not_after(&self.items[i], &self.items[small]) {
                assert forall|j: int| 0 < j < n implies entry_le(
                    self.items@[(j - 1) / 2],
                    #[trigger] self.items@[j],
                ) by {
                    if (j - 1) / 2 == i {
                        assert(j == left || j == left + 1);
                    }
                }
                break;
            }
            let ghost before = self.items@;
            let above = self.items[i];
            let below = self.items[small];
            self.items.set(i, below);
            self.items.set(small, above);
            proof {
                lemma_swap_keeps_multiset(before, i as int, small as int);
                assert forall|j: int|
                    0 < j < n && (j - 1) / 2 != small implies entry_le(
                    self.items@[(j - 1) / 2],
                    #[trigger] self.items@[j],
                ) by {
                    if j == i {
                        assert(entry_le(before[(i - 1) / 2], before[small as int]));
                    } else if (j - 1) / 2 == i {
                        assert(j == left || j == left + 1);
                    } else {
                        assert(entry_le(before[(j - 1) / 2], before[j]));
                    }
                }
                assert forall|c: int| 0 < c < n && (c - 1) / 2 == small implies entry_le(
                    self.items@[(small - 1) / 2],
                    #[trigger] self.items@[c],
                ) by {
                    assert(entry_le(before[(c - 1) / 2], before[c]));
                }
            }
            i = small;
        }
    }
}

proof fn lemma_root_is_least(s: Seq<Entry>)
    requires
        heap_ordered(s),
        s.len() > 0,
    ensures
        forall|i: int| 0 <= i < s.len() ==> entry_le(s[0], #[trigger] s[i]),
{
    assert forall|i: int| 0 <= i < s.len() implies entry_le(s[0], #[trigger] s[i]) by {
        lemma_root_before(s, i);
    }
}

proof fn lemma_root_before(s: Seq<Entry>, i: int)
    requires
        heap_ordered(s),
        0 <= i < s.len(),
    ensures
        entry_le(s[0], s[i]),
    decreases i,
{
    if i > 0 {
        lemma_root_before(s, (i - 1) / 2);
        assert(entry_le(s[(i - 1) / 2], s[i]));
    }
}

proof fn lemma_swap_keeps_multiset(s: Seq<Entry>, i: int, j: int)
    requires
        0 <= i < s.len(),
        0 <= j < s.len(),
        i != j,
    ensures
        s.update(i, s[j]).update(j, s[i]).to_multiset() == s.to_multiset(),
{
    let t = s.update(i, s[j]);
    vstd::seq_lib::to_multiset_update(s, i, s[j]);
    vstd::seq_lib::to_multiset_update(t, j, s[i]);
    broadcast use vstd::multiset::group_multiset_axioms;

    vstd::seq_lib::to_multiset_contains(s, s[i]);
    vstd::seq_lib::to_multiset_contains(s, s[j]);
    assert(s.contains(s[i]) && s.contains(s[j]));
    assert(t.update(j, s[i]).to_multiset() =~= s.to_multiset());
}

/// Popping the last entry and writing it over the root takes the root out.
proof fn lemma_replace_root(s: Seq<Entry>, t: Seq<Entry>)
    requires
        s.len() > 1,
        t == s.drop_last().update(0, s.last()),
    ensures
        t.to_multiset() == s.to_multiset().remove(s[0]),
{
    let d = s.drop_last();
    assert(d.push(s.last()) =~= s);
    vstd::seq_lib::to_multiset_build(d, s.last());
    vstd::seq_lib::to_multiset_update(d, 0, s.last());
}

/// Entries rank by cost, then by hops, then by node, then by tag.
pub proof fn law_entries_rank_by_cost_first(a: Entry, b: Entry)
    ensures
        a.cost < b.cost ==> entry_le(a, b) && !entry_le(b, a),
        a.cost == b.cost && a.hops < b.hops ==> entry_le(a, b) && !entry_le(b, a),
        a.cost == b.cost && a.hops == b.hops && a.node < b.node ==> entry_le(a, b) && !entry_le(
            b,
            a,
        ),
        a.cost == b.cost && a.hops == b.hops && a.node == b.node && a.tag < b.tag ==> entry_le(
            a,
            b,
        ) && !entry_le(b, a),
        a == b ==> entry_le(a, b),
{
}

} // verus!
