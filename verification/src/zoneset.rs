//! Zone sets as 64-bit masks.
//!
//! The tariff area has about sixty fare zones, so the zones a journey has
//! touched fit in a single `u64`: union is `|`, the subset test is one
//! instruction, and the search can afford many sets per station.

use crate::bits::{
    bit_set, has_bit, lemma_bit_or, lemma_bit_set_finite, lemma_bit_single, lemma_lowest_bit,
    lemma_no_bits, lemma_subset_bits,
};
use vstd::prelude::*;

verus! {

/// A set of fare zones, one bit per zone *index* (not per zone number).
///
/// The mapping from zone number (110, 121, ...) to bit index lives in
/// [`ZoneIndex`]; this type knows nothing about zone numbers. Its view is the
/// set of indices.
#[derive(Clone, Copy, PartialEq, Eq, Hash, Default, Debug, Structural)]
pub struct ZoneSet(pub u64);

impl View for ZoneSet {
    type V = Set<int>;

    open spec fn view(&self) -> Set<int> {
        bit_set(self.0)
    }
}

impl ZoneSet {
    /// The set with no zone in it.
    pub fn empty() -> (r: ZoneSet)
        ensures
            r.0 == 0,
            r@ == Set::<int>::empty(),
    {
        proof {
            lemma_no_bits(0);
        }
        ZoneSet(0)
    }

    pub fn single(idx: u8) -> (r: ZoneSet)
        requires
            idx < 64,
        ensures
            r.0 == 1u64 << idx,
            r@ == set![idx as int],
    {
        proof {
            lemma_bit_single(idx);
        }
        let r = ZoneSet(1u64 << idx);
        assert(r@ =~= set![idx as int]);
        r
    }

    pub fn with(self, idx: u8) -> (r: ZoneSet)
        requires
            idx < 64,
        ensures
            r@ == self@.insert(idx as int),
    {
        proof {
            lemma_bit_single(idx);
            lemma_bit_or(self.0, 1u64 << idx);
        }
        let r = ZoneSet(self.0 | (1u64 << idx));
        assert(r@ =~= self@.insert(idx as int));
        r
    }

    pub fn union(self, other: ZoneSet) -> (r: ZoneSet)
        ensures
            r.0 == self.0 | other.0,
            r@ == self@.union(other@),
    {
        proof {
            lemma_bit_or(self.0, other.0);
        }
        ZoneSet(self.0 | other.0)
    }

    pub fn contains(self, idx: u8) -> (r: bool)
        requires
            idx < 64,
        ensures
            r == self@.contains(idx as int),
    {
        proof {
            lemma_bit_single(idx);
        }
        self.0 & (1u64 << idx) != 0
    }

    /// How many zones the set holds.
    pub fn len(self) -> (r: u32)
        ensures
            r == self@.len(),
    {
        let mut bits: u64 = self.0;
        let mut count: u32 = 0;
        proof {
            lemma_bit_set_finite(self.0);
        }
        while bits != 0
            invariant
                self@.len() <= 64,
                bit_set(bits).finite(),
                count + bit_set(bits).len() == self@.len(),
            decreases bits,
        {
            let ghost before = bits;
            proof {
                lemma_lowest_bit(bits);
                lemma_bit_set_finite(bits);
                assert(bits & ((bits - 1) as u64) < bits) by (bit_vector)
                    requires
                        bits != 0,
                ;
            }
            bits = bits & (bits - 1);
            proof {
                let low = vstd::std_specs::bits::u64_trailing_zeros(before) as int;
                assert(bit_set(before).contains(low));
                assert(bit_set(bits) =~= bit_set(before).remove(low));
            }
            count = count + 1;
        }
        proof {
            lemma_no_bits(bits);
        }
        count
    }

    pub fn is_empty(self) -> (r: bool)
        ensures
            r == (self@ == Set::<int>::empty()),
    {
        proof {
            lemma_no_bits(self.0);
        }
        self.0 == 0
    }

    /// True when `self` is a subset of `other`.
    ///
    /// This is the dominance test that keeps the Pareto frontier small: a label
    /// whose zone set is a subset of another's can never cost more, now or after
    /// any continuation, so the superset can be discarded.
    pub fn is_subset_of(self, other: ZoneSet) -> (r: bool)
        ensures
            r == crate::bits::mask_subset(self.0, other.0),
            r == self@.subset_of(other@),
    {
        proof {
            lemma_subset_bits(self.0, other.0);
        }
        (self.0 & !other.0) == 0
    }

    /// The indices in the set, in increasing order.
    pub fn iter(self) -> (r: Vec<u8>)
        ensures
            forall|i: int, j: int| 0 <= i < j < r@.len() ==> r@[i] < r@[j],
            forall|x: u8| #[trigger] r@.contains(x) <==> self@.contains(x as int),
            r@.len() == self@.len(),
    {
        let mut bits: u64 = self.0;
        let mut out: Vec<u8> = Vec::new();
        proof {
            lemma_bit_set_finite(self.0);
        }
        while bits != 0
            invariant
                forall|i: int, j: int| 0 <= i < j < out@.len() ==> out@[i] < out@[j],
                forall|i: int, b: int|
                    0 <= i < out@.len() && #[trigger] has_bit(bits, b) ==> #[trigger] out@[i] < b,
                forall|i: int| 0 <= i < out@.len() ==> self@.contains(#[trigger] out@[i] as int),
                forall|b: int| #[trigger]
                    has_bit(self.0, b) ==> has_bit(bits, b) || out@.contains(b as u8),
                forall|b: int| #[trigger] has_bit(bits, b) ==> has_bit(self.0, b),
                bit_set(bits).finite(),
                out@.len() + bit_set(bits).len() == self@.len(),
            decreases bits,
        {
            let ghost before = bits;
            let ghost old_out = out@;
            proof {
                lemma_lowest_bit(bits);
                lemma_bit_set_finite(bits);
                assert(bits & ((bits - 1) as u64) < bits) by (bit_vector)
                    requires
                        bits != 0,
                ;
            }
            let idx: u8 = bits.trailing_zeros() as u8;
            bits = bits & (bits - 1);
            out.push(idx);
            proof {
                assert(bit_set(before).contains(idx as int));
                assert(bit_set(bits) =~= bit_set(before).remove(idx as int));
                assert forall|b: int| #[trigger] has_bit(self.0, b) implies has_bit(bits, b)
                    || out@.contains(b as u8) by {
                    if b == idx {
                        assert(out@[old_out.len() as int] == b as u8);
                    } else if !has_bit(before, b) {
                        assert(old_out.contains(b as u8));
                        let k = choose|k: int| 0 <= k < old_out.len() && old_out[k] == b as u8;
                        assert(out@[k] == b as u8);
                    }
                }
            }
        }
        proof {
            lemma_no_bits(bits);
            assert forall|x: u8| #[trigger] out@.contains(x) <==> self@.contains(x as int) by {
                if self@.contains(x as int) {
                    assert(has_bit(self.0, x as int));
                }
            }
        }
        out
    }
}

/// Zones that count double under the tariff: the cities of Zürich and
/// Winterthur.
pub const DOUBLE_WEIGHT_ZONES: [u32; 2] = [110, 120];

/// How many zones a zone number is billed as.
pub open spec fn zone_weight(number: u32) -> nat {
    if DOUBLE_WEIGHT_ZONES@.contains(number) {
        2
    } else {
        1
    }
}

pub fn weight_for_zone(number: u32) -> (r: u32)
    ensures
        r == zone_weight(number),
        r == if number == 110 || number == 120 { 2int } else { 1 },
{
    proof {
        assert(DOUBLE_WEIGHT_ZONES@[0] == 110 && DOUBLE_WEIGHT_ZONES@[1] == 120);
    }
    if number == DOUBLE_WEIGHT_ZONES[0] || number == DOUBLE_WEIGHT_ZONES[1] {
        2
    } else {
        1
    }
}

/// Sorted without repetition.
pub open spec fn strictly_increasing(s: Seq<u32>) -> bool {
    forall|i: int, j: int| 0 <= i < j < s.len() ==> s[i] < s[j]
}

/// What the zones of `set` with an index below `k` are billed as together.
pub open spec fn billed_below(numbers: Seq<u32>, set: Set<int>, k: nat) -> nat
    decreases k,
{
    if k == 0 {
        0
    } else {
        billed_below(numbers, set, (k - 1) as nat) + if set.contains(k - 1) {
            zone_weight(numbers[k - 1])
        } else {
            0
        }
    }
}

/// The number of zones the tariff bills for a set of zone indices: every zone
/// once, the two city zones twice.
pub open spec fn billed(numbers: Seq<u32>, set: Set<int>) -> nat {
    billed_below(numbers, set, numbers.len())
}

/// Whether every index in `set` stands for one of `numbers`.
pub open spec fn indexed(numbers: Seq<u32>, set: Set<int>) -> bool {
    forall|i: int| #[trigger] set.contains(i) ==> 0 <= i < numbers.len()
}

/// The zone numbers do not fit in a 64-bit set.
#[derive(Clone, Copy, PartialEq, Eq, Debug, Structural)]
pub struct TooManyZones {
    /// How many distinct zone numbers there were.
    pub count: usize,
}

/// Maps zone numbers to bit indices and carries each zone's tariff weight.
///
/// Zones 110 (city of Zürich) and 120 (city of Winterthur) each count as two
/// zones, so weight is not simply the set cardinality. Its view is the sequence
/// of zone numbers, ordered by bit index.
#[derive(Debug)]
pub struct ZoneIndex {
    numbers: Vec<u32>,
    weights: Vec<u32>,
}

impl View for ZoneIndex {
    type V = Seq<u32>;

    closed spec fn view(&self) -> Seq<u32> {
        self.numbers@
    }
}

impl Clone for ZoneIndex {
    fn clone(&self) -> (r: ZoneIndex)
        ensures
            r@ == self@,
    {
        proof {
            use_type_invariant(self);
        }
        let numbers = self.numbers.clone();
        let weights = self.weights.clone();
        assert(numbers@ =~= self.numbers@);
        assert(weights@ =~= self.weights@);
        ZoneIndex { numbers, weights }
    }
}

impl Default for ZoneIndex {
    fn default() -> (r: ZoneIndex)
        ensures
            r@ == Seq::<u32>::empty(),
    {
        ZoneIndex { numbers: Vec::new(), weights: Vec::new() }
    }
}

/// What holds of the zone numbers of every [`ZoneIndex`].
pub open spec fn zone_numbers_valid(numbers: Seq<u32>) -> bool {
    numbers.len() <= 64 && strictly_increasing(numbers)
}

impl ZoneIndex {
    #[verifier::type_invariant]
    spec fn inv(&self) -> bool {
        &&& zone_numbers_valid(self.numbers@)
        &&& self.weights@.len() == self.numbers@.len()
        &&& forall|i: int|
            0 <= i < self.weights@.len() ==> #[trigger] self.weights@[i] == zone_weight(
                self.numbers@[i],
            )
    }

    /// Build from zone numbers, in any order and with repetitions. They are
    /// sorted so bit indices are stable across runs.
    pub fn new(numbers: Vec<u32>) -> (r: Result<ZoneIndex, TooManyZones>)
        ensures
            match r {
                Ok(z) => {
                    &&& numbers@.to_set().len() <= 64
                    &&& zone_numbers_valid(z@)
                    &&& z@.to_set() == numbers@.to_set()
                    &&& forall|i: int, j: int|
                        #![trigger z@[i], z@[j]]
                        0 <= i < j < z@.len() ==> z@[i] < z@[j]
                },
                Err(e) => numbers@.to_set().len() > 64 && e.count == numbers@.to_set().len(),
            },
    {
        let mut sorted: Vec<u32> = Vec::new();
        let mut i: usize = 0;
        while i < numbers.len()
            invariant
                i <= numbers@.len(),
                strictly_increasing(sorted@),
                sorted@.to_set() == numbers@.take(i as int).to_set(),
            decreases numbers@.len() - i,
        {
            insert_sorted(&mut sorted, numbers[i]);
            proof {
                let before = numbers@.take(i as int);
                let after = numbers@.take(i + 1);
                assert(after =~= before.push(numbers@[i as int]));
                assert(after.to_set() =~= before.to_set().insert(numbers@[i as int])) by {
                    assert forall|x: u32| after.to_set().contains(x) implies before.to_set().insert(
                        numbers@[i as int],
                    ).contains(x) by {
                        let k = choose|k: int| 0 <= k < after.len() && after[k] == x;
                        if k < before.len() {
                            assert(before[k] == x);
                        }
                    }
                    assert forall|x: u32|
                        before.to_set().insert(numbers@[i as int]).contains(x) implies after.to_set().contains(
                    x) by {
                        if before.contains(x) {
                            let k = choose|k: int| 0 <= k < before.len() && before[k] == x;
                            assert(after[k] == x);
                        } else {
                            assert(after[i as int] == x);
                        }
                    }
                }
            }
            i = i + 1;
        }
        proof {
            assert(numbers@.take(i as int) =~= numbers@);
            lemma_increasing_distinct(sorted@);
        }
        if sorted.len() > 64 {
            return Err(TooManyZones { count: sorted.len() });
        }
        let mut weights: Vec<u32> = Vec::new();
        let mut k: usize = 0;
        while k < sorted.len()
            invariant
                k <= sorted@.len(),
                weights@.len() == k,
                forall|j: int|
                    0 <= j < weights@.len() ==> #[trigger] weights@[j] == zone_weight(sorted@[j]),
            decreases sorted@.len() - k,
        {
            weights.push(weight_for_zone(sorted[k]));
            k = k + 1;
        }
        Ok(ZoneIndex { numbers: sorted, weights })
    }

    pub fn len(&self) -> (r: usize)
        ensures
            r == self@.len(),
            zone_numbers_valid(self@),
    {
        proof {
            use_type_invariant(self);
        }
        self.numbers.len()
    }

    pub fn is_empty(&self) -> (r: bool)
        ensures
            r == (self@.len() == 0),
    {
        self.numbers.len() == 0
    }

    pub fn numbers(&self) -> (r: &[u32])
        ensures
            r@ == self@,
            zone_numbers_valid(self@),
    {
        proof {
            use_type_invariant(self);
        }
        self.numbers.as_slice()
    }

    /// The bit index of a zone number.
    pub fn index_of(&self, number: u32) -> (r: Option<u8>)
        ensures
            match r {
                Some(i) => i < self@.len() && i < 64 && self@[i as int] == number,
                None => !self@.contains(number),
            },
    {
        proof {
            use_type_invariant(self);
        }
        let mut lo: usize = 0;
        let mut hi: usize = self.numbers.len();
        while lo < hi
            invariant
                zone_numbers_valid(self.numbers@),
                lo <= hi <= self.numbers@.len(),
                forall|i: int| 0 <= i < lo ==> self.numbers@[i] < number,
                forall|i: int| hi <= i < self.numbers@.len() ==> self.numbers@[i] > number,
            decreases hi - lo,
        {
            let mid: usize = lo + (hi - lo) / 2;
            if self.numbers[mid] == number {
                return Some(mid as u8);
            }
            if self.numbers[mid] < number {
                lo = mid + 1;
            } else {
                hi = mid;
            }
        }
        None
    }

    /// The zone number at a bit index.
    pub fn number_at(&self, idx: u8) -> (r: u32)
        requires
            idx < self@.len(),
        ensures
            r == self@[idx as int],
    {
        self.numbers[idx as usize]
    }

    /// Total tariff weight of a zone set: the "number of zones" that is billed.
    pub fn weight(&self, set: ZoneSet) -> (r: u32)
        requires
            indexed(self@, set@),
        ensures
            r == billed(self@, set@),
            r <= 2 * self@.len(),
    {
        proof {
            use_type_invariant(self);
        }
        let mut total: u32 = 0;
        let mut i: usize = 0;
        while i < self.numbers.len()
            invariant
                self.inv(),
                i <= self.numbers@.len(),
                total == billed_below(self.numbers@, set@, i as nat),
                total <= 2 * i,
            decreases self.numbers@.len() - i,
        {
            if set.contains(i as u8) {
                total = total + self.weights[i];
            }
            i = i + 1;
        }
        total
    }
}

/// Strictly increasing numbers are distinct.
pub proof fn lemma_increasing_distinct(s: Seq<u32>)
    requires
        strictly_increasing(s),
    ensures
        s.to_set().len() == s.len(),
{
    s.unique_seq_to_set();
}

/// Puts `x` into an increasing list unless it is there already.
fn insert_sorted(v: &mut Vec<u32>, x: u32)
    requires
        strictly_increasing(old(v)@),
    ensures
        strictly_increasing(final(v)@),
        final(v)@.to_set() == old(v)@.to_set().insert(x),
{
    let ghost before = v@;
    let mut pos: usize = v.len();
    while pos > 0 && v[pos - 1] > x
        invariant
            v@ == before,
            pos <= v@.len(),
            strictly_increasing(v@),
            forall|i: int| pos <= i < v@.len() ==> v@[i] > x,
        decreases pos,
    {
        pos = pos - 1;
    }
    if pos > 0 && v[pos - 1] == x {
        assert(before.contains(x));
        assert(before.to_set() =~= before.to_set().insert(x));
        return ;
    }
    v.insert(pos, x);
    proof {
        assert forall|y: u32| v@.contains(y) <==> before.to_set().insert(x).contains(y) by {
            if v@.contains(y) {
                let k = choose|k: int| 0 <= k < v@.len() && v@[k] == y;
                if k < pos {
                    assert(before[k] == y);
                } else if k > pos {
                    assert(before[k - 1] == y);
                }
            }
            if before.contains(y) {
                let k = choose|k: int| 0 <= k < before.len() && before[k] == y;
                if k < pos {
                    assert(v@[k] == y);
                } else {
                    assert(v@[k + 1] == y);
                }
            }
            if y == x {
                assert(v@[pos as int] == x);
            }
        }
        assert(v@.to_set() =~= before.to_set().insert(x));
    }
}

/// A subset never bills more, and never bills more after any continuation
/// either: whatever zones `more` a journey goes on to cross, the smaller set
/// stays the cheaper one.
pub proof fn law_subset_never_costs_more(
    numbers: Seq<u32>,
    a: Set<int>,
    b: Set<int>,
    more: Set<int>,
)
    requires
        a.subset_of(b),
    ensures
        billed(numbers, a) <= billed(numbers, b),
        billed(numbers, a.union(more)) <= billed(numbers, b.union(more)),
{
    lemma_billed_monotone(numbers, a, b, numbers.len());
    lemma_billed_monotone(numbers, a.union(more), b.union(more), numbers.len());
}

/// Entering a zone that is paid for already changes nothing.
pub proof fn law_reentering_is_free(numbers: Seq<u32>, set: Set<int>, idx: int)
    requires
        set.contains(idx),
    ensures
        set.insert(idx) == set,
        billed(numbers, set.insert(idx)) == billed(numbers, set),
{
    assert(set.insert(idx) =~= set);
}

/// Entering a new zone adds exactly that zone's own weight.
pub proof fn law_new_zone_adds_its_weight(numbers: Seq<u32>, set: Set<int>, idx: int)
    requires
        0 <= idx < numbers.len(),
        !set.contains(idx),
    ensures
        billed(numbers, set.insert(idx)) == billed(numbers, set) + zone_weight(numbers[idx]),
{
    lemma_billed_insert(numbers, set, idx, numbers.len());
}

/// What a set of zones is billed as: an empty one is free, and each further zone costs
/// one more, or two more where it is zone 110 or 120.
pub proof fn law_zones_cost_one_or_two(numbers: Seq<u32>, set: Set<int>, idx: int)
    requires
        0 <= idx < numbers.len(),
        !set.contains(idx),
    ensures
        billed(numbers, Set::empty()) == 0,
        billed(numbers, set.insert(idx)) == billed(numbers, set) + (if numbers[idx] == 110
            || numbers[idx] == 120 {
            2int
        } else {
            1
        }),
{
    lemma_billed_nothing(numbers, numbers.len());
    law_new_zone_adds_its_weight(numbers, set, idx);
    lemma_double_zones(numbers[idx]);
}

proof fn lemma_billed_nothing(numbers: Seq<u32>, k: nat)
    ensures
        billed_below(numbers, Set::empty(), k) == 0,
    decreases k,
{
    if k > 0 {
        lemma_billed_nothing(numbers, (k - 1) as nat);
    }
}

/// Zones 110 and 120 count double, and no other.
pub proof fn lemma_double_zones(number: u32)
    ensures
        zone_weight(number) == if number == 110 || number == 120 {
            2int
        } else {
            1
        },
{
    assert(DOUBLE_WEIGHT_ZONES@.len() == 2);
    assert(DOUBLE_WEIGHT_ZONES@[0] == 110 && DOUBLE_WEIGHT_ZONES@[1] == 120);
    if DOUBLE_WEIGHT_ZONES@.contains(number) {
        let i = choose|i: int|
            0 <= i < DOUBLE_WEIGHT_ZONES@.len() && DOUBLE_WEIGHT_ZONES@[i] == number;
        assert(i == 0 || i == 1);
    }
}

/// A numbering is fixed by the numbers in it.
pub proof fn lemma_same_numbers(a: Seq<u32>, b: Seq<u32>)
    requires
        strictly_increasing(a),
        strictly_increasing(b),
        a.to_set() == b.to_set(),
    ensures
        a == b,
    decreases a.len(),
{
    if a.len() == 0 {
        if b.len() > 0 {
            assert(b.to_set().contains(b[0]));
            assert(a.contains(b[0]));
        }
    } else {
        assert(a.to_set().contains(a.last()));
        assert(b.contains(a.last()));
        let i = choose|i: int| 0 <= i < b.len() && b[i] == a.last();
        assert(b.to_set().contains(b.last()));
        assert(a.contains(b.last()));
        let j = choose|j: int| 0 <= j < a.len() && a[j] == b.last();
        assert(a.last() == b.last());
        let x = a.drop_last();
        let y = b.drop_last();
        assert forall|n: u32| x.to_set().contains(n) <==> y.to_set().contains(n) by {
            if x.contains(n) {
                let k = choose|k: int| 0 <= k < x.len() && x[k] == n;
                assert(a[k] == n && n < a.last());
                assert(a.to_set().contains(n));
                assert(b.contains(n));
                let m = choose|m: int| 0 <= m < b.len() && b[m] == n;
                assert(y[m] == n);
            }
            if y.contains(n) {
                let k = choose|k: int| 0 <= k < y.len() && y[k] == n;
                assert(b[k] == n && n < b.last());
                assert(b.to_set().contains(n));
                assert(a.contains(n));
                let m = choose|m: int| 0 <= m < a.len() && a[m] == n;
                assert(x[m] == n);
            }
        }
        assert(x.to_set() =~= y.to_set());
        lemma_same_numbers(x, y);
        assert(a =~= x.push(a.last()));
        assert(b =~= y.push(b.last()));
    }
}

proof fn lemma_billed_insert(numbers: Seq<u32>, set: Set<int>, idx: int, k: nat)
    requires
        0 <= idx,
        !set.contains(idx),
    ensures
        billed_below(numbers, set.insert(idx), k) == billed_below(numbers, set, k) + if idx < k {
            zone_weight(numbers[idx])
        } else {
            0
        },
    decreases k,
{
    if k > 0 {
        lemma_billed_insert(numbers, set, idx, (k - 1) as nat);
    }
}

proof fn lemma_billed_monotone(numbers: Seq<u32>, a: Set<int>, b: Set<int>, k: nat)
    requires
        a.subset_of(b),
    ensures
        billed_below(numbers, a, k) <= billed_below(numbers, b, k),
    decreases k,
{
    if k > 0 {
        lemma_billed_monotone(numbers, a, b, (k - 1) as nat);
    }
}

/// Dropping a zone of the index from a set makes it strictly cheaper.
pub proof fn lemma_billed_strict(numbers: Seq<u32>, a: Set<int>, b: Set<int>, i: int)
    requires
        a.subset_of(b),
        b.contains(i),
        !a.contains(i),
        0 <= i < numbers.len(),
    ensures
        billed(numbers, a) < billed(numbers, b),
{
    lemma_billed_insert(numbers, a, i, numbers.len());
    lemma_billed_monotone(numbers, a.insert(i), b, numbers.len());
}

pub proof fn lemma_billed_bound(numbers: Seq<u32>, a: Set<int>, k: nat)
    ensures
        billed_below(numbers, a, k) <= 2 * k,
    decreases k,
{
    if k > 0 {
        lemma_billed_bound(numbers, a, (k - 1) as nat);
    }
}

} // verus!
