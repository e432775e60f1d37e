//! Sequences of vectors, and counting the entries of a sequence.

use vstd::prelude::*;

verus! {

/// The contents of a vector of vectors.
pub open spec fn nested<T>(v: Seq<Vec<T>>) -> Seq<Seq<T>> {
    Seq::new(v.len(), |i: int| v[i]@)
}

/// A list of distinct numbers below `n` is no longer than `n`.
pub proof fn lemma_distinct_bounded(s: Seq<u32>, n: nat)
    requires
        s.no_duplicates(),
        forall|i: int| 0 <= i < s.len() ==> #[trigger] s[i] < n,
    ensures
        s.len() <= n,
{
    let wide = Seq::new(s.len(), |i: int| s[i] as int);
    assert(wide.no_duplicates()) by {
        assert forall|i: int, j: int| 0 <= i < wide.len() && 0 <= j < wide.len() && i != j implies
            wide[i] != wide[j] by {
            assert(s[i] != s[j]);
        }
    }
    wide.unique_seq_to_set();
    vstd::set_lib::lemma_int_range(0, n as int);
    assert(wide.to_set().subset_of(vstd::set_lib::set_int_range(0, n as int))) by {
        assert forall|x: int| #[trigger] wide.to_set().contains(x) implies 0 <= x < n by {
            let i = choose|i: int| 0 <= i < wide.len() && wide[i] == x;
            assert(s[i] < n);
        }
    }
    vstd::set_lib::lemma_len_subset(
        wide.to_set(),
        vstd::set_lib::set_int_range(0, n as int),
    );
}

} // verus!
