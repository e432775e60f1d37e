//! Single bits of a 64-bit mask, and what they say of the whole mask.

use vstd::prelude::*;
use vstd::std_specs::bits::{axiom_u64_trailing_zeros, u64_trailing_zeros};

verus! {

/// Whether bit `i` of `mask` is set; false outside the 64 bit positions.
pub open spec fn has_bit(mask: u64, i: int) -> bool {
    0 <= i < 64 && (mask >> (i as u64)) & 1 == 1
}

/// The bit positions set in `mask`.
pub open spec fn bit_set(mask: u64) -> Set<int> {
    Set::new(|i: int| has_bit(mask, i))
}

/// Whether every bit of `a` is a bit of `b`.
pub open spec fn mask_subset(a: u64, b: u64) -> bool {
    a & !b == 0
}

pub proof fn lemma_bit_single(j: u8)
    requires
        j < 64,
    ensures
        forall|i: int| #[trigger] has_bit(1u64 << j, i) <==> i == j,
        forall|m: u64| (#[trigger] (m & (1u64 << j)) != 0) <==> has_bit(m, j as int),
{
    assert forall|i: int| #[trigger] has_bit(1u64 << j, i) <==> i == j by {
        if 0 <= i < 64 {
            let k = i as u64;
            assert(((1u64 << j) >> k) & 1 == 1 <==> k == j) by (bit_vector)
                requires
                    k < 64,
                    j < 64,
            ;
        }
    }
    assert forall|m: u64| (#[trigger] (m & (1u64 << j)) != 0) <==> has_bit(m, j as int) by {
        let k = j as u64;
        assert((m & (1u64 << j)) != 0 <==> (m >> k) & 1 == 1) by (bit_vector)
            requires
                k == j,
                j < 64,
        ;
    }
}

pub proof fn lemma_bit_or(a: u64, b: u64)
    ensures
        forall|i: int| #[trigger] has_bit(a | b, i) <==> has_bit(a, i) || has_bit(b, i),
        bit_set(a | b) =~= bit_set(a).union(bit_set(b)),
{
    assert forall|i: int| #[trigger] has_bit(a | b, i) <==> has_bit(a, i) || has_bit(b, i) by {
        let k = i as u64;
        assert(((a | b) >> k) & 1 == 1 <==> (a >> k) & 1 == 1 || (b >> k) & 1 == 1)
            by (bit_vector);
    }
}

/// A mask other than zero has a lowest set bit, and `mask & (mask - 1)` is the
/// mask without it.
pub proof fn lemma_lowest_bit(mask: u64)
    requires
        mask != 0,
    ensures
        0 <= u64_trailing_zeros(mask) < 64,
        has_bit(mask, u64_trailing_zeros(mask) as int),
        forall|i: int| #[trigger] has_bit(mask, i) ==> i >= u64_trailing_zeros(mask),
        forall|i: int| #[trigger]
            has_bit(mask & ((mask - 1) as u64), i) <==> has_bit(mask, i) && i
                != u64_trailing_zeros(mask),
{
    axiom_u64_trailing_zeros(mask);
    let tz = u64_trailing_zeros(mask) as u64;
    let pred = (mask - 1) as u64;
    assert forall|i: int| #[trigger] has_bit(mask, i) implies i >= u64_trailing_zeros(mask) by {
        if i < u64_trailing_zeros(mask) {
            assert((mask >> (i as u64)) & 1u64 == 0u64);
        }
    }
    assert forall|i: int| #[trigger] has_bit(mask & pred, i) <==> has_bit(mask, i) && i
        != u64_trailing_zeros(mask) by {
        if 0 <= i < 64 {
            let k = i as u64;
            let up = (64 - tz) as u64;
            assert(((mask & pred) >> k) & 1 == 1 <==> (mask >> k) & 1 == 1 && k != tz)
                by (bit_vector)
                requires
                    tz < 64,
                    k < 64,
                    mask != 0,
                    pred == mask - 1,
                    up == 64 - tz,
                    (mask >> tz) & 1 == 1,
                    mask << up == 0,
            ;
        }
    }
}

pub proof fn lemma_no_bits(mask: u64)
    ensures
        mask == 0 <==> (forall|i: int| !#[trigger] has_bit(mask, i)),
        mask == 0 <==> bit_set(mask) =~= Set::empty(),
{
    if mask == 0 {
        assert forall|i: int| !#[trigger] has_bit(mask, i) by {
            let k = i as u64;
            assert((0u64 >> k) & 1 == 0) by (bit_vector);
        }
    } else {
        lemma_lowest_bit(mask);
        assert(bit_set(mask).contains(u64_trailing_zeros(mask) as int));
    }
}

pub proof fn lemma_subset_bits(a: u64, b: u64)
    ensures
        mask_subset(a, b) <==> (forall|i: int| #[trigger] has_bit(a, i) ==> has_bit(b, i)),
        mask_subset(a, b) <==> bit_set(a).subset_of(bit_set(b)),
{
    assert forall|i: int| #[trigger] has_bit(a & !b, i) <==> has_bit(a, i) && !has_bit(b, i) by {
        if 0 <= i < 64 {
            let k = i as u64;
            assert(((a & !b) >> k) & 1 == 1 <==> (a >> k) & 1 == 1 && !((b >> k) & 1 == 1))
                by (bit_vector)
                requires
                    k < 64,
            ;
        }
    }
    lemma_no_bits(a & !b);
    if forall|i: int| #[trigger] has_bit(a, i) ==> has_bit(b, i) {
        assert forall|i: int| !#[trigger] has_bit(a & !b, i) by {}
    }
    if mask_subset(a, b) {
        assert forall|i: int| #[trigger] has_bit(a, i) implies has_bit(b, i) by {
            assert(!has_bit(a & !b, i));
        }
    }
    if bit_set(a).subset_of(bit_set(b)) {
        assert forall|i: int| #[trigger] has_bit(a, i) implies has_bit(b, i) by {
            assert(bit_set(a).contains(i));
            assert(bit_set(b).contains(i));
        }
    }
}

/// Two masks with the same bits are equal.
pub proof fn lemma_masks_equal(a: u64, b: u64)
    requires
        bit_set(a) =~= bit_set(b),
    ensures
        a == b,
{
    lemma_subset_bits(a, b);
    lemma_subset_bits(b, a);
    assert(a == b) by (bit_vector)
        requires
            a & !b == 0,
            b & !a == 0,
    ;
}

/// Order facts of [`mask_subset`] and how it meets union.
pub proof fn lemma_subset_order(a: u64, b: u64, c: u64)
    ensures
        mask_subset(a, a),
        mask_subset(a, a | b),
        mask_subset(b, a | b),
        mask_subset(a, b) && mask_subset(b, c) ==> mask_subset(a, c),
        mask_subset(a, b) ==> mask_subset(a | c, b | c),
        mask_subset(a, b) && mask_subset(b, a) ==> a == b,
        mask_subset(a, c) && mask_subset(b, c) ==> mask_subset(a | b, c),
{
    assert(a & !a == 0) by (bit_vector);
    assert(a & !(a | b) == 0) by (bit_vector);
    assert(b & !(a | b) == 0) by (bit_vector);
    assert(a & !b == 0 && b & !c == 0 ==> a & !c == 0) by (bit_vector);
    assert(a & !b == 0 ==> (a | c) & !(b | c) == 0) by (bit_vector);
    assert(a & !b == 0 && b & !a == 0 ==> a == b) by (bit_vector);
    assert(a & !c == 0 && b & !c == 0 ==> (a | b) & !c == 0) by (bit_vector);
}

/// At most 64 positions can be set.
pub proof fn lemma_bit_set_finite(mask: u64)
    ensures
        bit_set(mask).finite(),
        bit_set(mask).len() <= 64,
{
    vstd::set_lib::lemma_int_range(0, 64);
    assert(bit_set(mask).subset_of(vstd::set_lib::set_int_range(0, 64)));
    vstd::set_lib::lemma_len_subset(bit_set(mask), vstd::set_lib::set_int_range(0, 64));
}

} // verus!
