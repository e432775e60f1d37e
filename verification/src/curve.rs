//! A price curve that never falls as distance rises.
//!
//! The raw median-per-kilometre curve dips in places, because the sample at each
//! distance is a different mix of routes and operators. Those dips break the
//! guarantee that a leg of a journey never costs more than the whole.
//! Pool-adjacent-violators gives the closest non-decreasing curve, weighted by how
//! many relations sit at each distance. Means are kept as fractions, so nothing is
//! rounded.

use crate::osdm::DistanceRow;
use vstd::prelude::*;

verus! {

/// A weighted mean, as a fraction.
#[derive(Debug, Clone, Copy, PartialEq, Eq, Structural)]
pub struct Mean {
    pub num: u128,
    pub den: u64,
}

/// One point of the monotone curve.
#[derive(Debug, Clone, Copy)]
pub struct CurvePoint {
    pub km: u32,
    pub p2: Mean,
    pub p1: Mean,
}

/// A stretch of the curve at one level: the mean of what lies in it.
#[derive(Debug, Clone, Copy)]
pub struct Block {
    pub start: usize,
    pub len: usize,
    /// The weighted sum of the values.
    pub sum: u128,
    /// The sum of the weights.
    pub weight: u64,
}

/// The weight of a point: at least one.
pub open spec fn weight_at(ws: Seq<u64>, i: int) -> nat {
    if ws[i] > 0 {
        ws[i] as nat
    } else {
        1
    }
}

/// The weights of the points `lo .. hi` together.
pub open spec fn range_weight(ws: Seq<u64>, lo: int, hi: int) -> nat
    decreases hi - lo,
{
    if hi <= lo {
        0
    } else {
        range_weight(ws, lo, hi - 1) + weight_at(ws, hi - 1)
    }
}

/// The weighted values of the points `lo .. hi` together.
pub open spec fn range_sum(xs: Seq<u64>, ws: Seq<u64>, lo: int, hi: int) -> nat
    decreases hi - lo,
{
    if hi <= lo {
        0
    } else {
        range_sum(xs, ws, lo, hi - 1) + xs[hi - 1] as nat * weight_at(ws, hi - 1)
    }
}

/// Whether a block is the mean of its stretch, and no beginning of the stretch
/// lies below that mean.
pub open spec fn is_block(xs: Seq<u64>, ws: Seq<u64>, b: Block) -> bool {
    &&& 0 < b.len
    &&& b.start + b.len <= xs.len()
    &&& b.sum == range_sum(xs, ws, b.start as int, b.start + b.len)
    &&& b.weight == range_weight(ws, b.start as int, b.start + b.len)
    &&& b.weight > 0
    &&& forall|k: int|
        b.start <= k <= b.start + b.len ==> #[trigger] range_sum(xs, ws, b.start as int, k)
            * b.weight >= b.sum * range_weight(ws, b.start as int, k)
}

/// Whether one block lies no higher than another.
pub open spec fn block_le(a: Block, b: Block) -> bool {
    a.sum * b.weight <= b.sum * a.weight
}

/// Whether blocks cover the points up to `end` without gaps.
pub open spec fn covers(blocks: Seq<Block>, end: int) -> bool {
    if blocks.len() == 0 {
        end == 0
    } else {
        &&& blocks[0].start == 0
        &&& blocks.last().start + blocks.last().len == end
        &&& forall|i: int|
            0 < i < blocks.len() ==> (#[trigger] blocks[i]).start == blocks[i - 1].start + blocks[i
                - 1].len
    }
}

/// Whether blocks never fall.
pub open spec fn rises(blocks: Seq<Block>) -> bool {
    forall|i: int, j: int|
        #![trigger blocks[i], blocks[j]]
        0 <= i <= j < blocks.len() ==> block_le(blocks[i], blocks[j])
}

/// Whether these blocks are the isotonic fit of weighted values.
pub open spec fn is_fit(xs: Seq<u64>, ws: Seq<u64>, blocks: Seq<Block>) -> bool {
    &&& covers(blocks, xs.len() as int)
    &&& rises(blocks)
    &&& forall|i: int| 0 <= i < blocks.len() ==> is_block(xs, ws, #[trigger] blocks[i])
}

// ---------------------------------------------------------------- sums

proof fn lemma_weight_splits(ws: Seq<u64>, lo: int, mid: int, hi: int)
    requires
        lo <= mid <= hi,
    ensures
        range_weight(ws, lo, hi) == range_weight(ws, lo, mid) + range_weight(ws, mid, hi),
    decreases hi - mid,
{
    if mid < hi {
        lemma_weight_splits(ws, lo, mid, hi - 1);
    }
}

proof fn lemma_sum_splits(xs: Seq<u64>, ws: Seq<u64>, lo: int, mid: int, hi: int)
    requires
        lo <= mid <= hi,
    ensures
        range_sum(xs, ws, lo, hi) == range_sum(xs, ws, lo, mid) + range_sum(xs, ws, mid, hi),
    decreases hi - mid,
{
    if mid < hi {
        lemma_sum_splits(xs, ws, lo, mid, hi - 1);
    }
}

proof fn lemma_sum_bound(xs: Seq<u64>, ws: Seq<u64>, lo: int, hi: int)
    requires
        0 <= lo <= hi <= xs.len(),
    ensures
        range_sum(xs, ws, lo, hi) <= 0xffff_ffff_ffff_ffff * range_weight(ws, lo, hi),
    decreases hi - lo,
{
    if lo < hi {
        lemma_sum_bound(xs, ws, lo, hi - 1);
        let x = xs[hi - 1] as nat;
        let w = weight_at(ws, hi - 1);
        let rest = range_weight(ws, lo, hi - 1);
        assert(x * w <= 0xffff_ffff_ffff_ffff * w) by (nonlinear_arith)
            requires
                x <= 0xffff_ffff_ffff_ffff,
        ;
        assert(0xffff_ffff_ffff_ffff * (rest + w) == 0xffff_ffff_ffff_ffff * rest
            + 0xffff_ffff_ffff_ffff * w) by (nonlinear_arith);
    }
}

proof fn lemma_weight_within(ws: Seq<u64>, lo: int, hi: int, n: int)
    requires
        0 <= lo <= hi <= n,
    ensures
        range_weight(ws, lo, hi) <= range_weight(ws, 0, n),
{
    lemma_weight_splits(ws, 0, lo, n);
    lemma_weight_splits(ws, lo, hi, n);
}

// --------------------------------------------------------- fractions

proof fn lemma_le_transitive(a: Block, b: Block, c: Block)
    requires
        block_le(a, b),
        block_le(b, c),
        a.weight > 0,
        b.weight > 0,
        c.weight > 0,
    ensures
        block_le(a, c),
{
    let (x, y, z) = (a.sum as int, b.sum as int, c.sum as int);
    let (p, q, r) = (a.weight as int, b.weight as int, c.weight as int);
    assert(x * r <= z * p) by (nonlinear_arith)
        requires
            x * q <= y * p,
            y * r <= z * q,
            p > 0,
            q > 0,
            r > 0,
    ;
}

/// Pooling two neighbours, the first of which lies higher: a beginning inside the
/// first one.
proof fn lemma_pool_first(p: int, v: int, sa: int, wa: int, sb: int, wb: int)
    requires
        p >= 0,
        v >= 0,
        sa >= 0,
        sb >= 0,
        wa > 0,
        wb > 0,
        p * wa >= sa * v,
        sa * wb >= sb * wa,
    ensures
        p * (wa + wb) >= (sa + sb) * v,
{
    assert(p * wb >= sb * v) by (nonlinear_arith)
        requires
            p * wa >= sa * v,
            sa * wb >= sb * wa,
            wa > 0,
            wb > 0,
            v >= 0,
    {
        assert((p * wa) * wb >= (sa * v) * wb);
        assert((sa * wb) * v >= (sb * wa) * v);
        assert((p * wb) * wa >= (sb * v) * wa);
    }
    assert(p * (wa + wb) == p * wa + p * wb) by (nonlinear_arith);
    assert((sa + sb) * v == sa * v + sb * v) by (nonlinear_arith);
}

/// Pooling two neighbours, the first of which lies higher: a beginning that
/// reaches into the second one.
proof fn lemma_pool_second(p: int, v: int, sa: int, wa: int, sb: int, wb: int)
    requires
        p >= 0,
        0 <= v <= wb,
        sa >= 0,
        sb >= 0,
        wa > 0,
        wb > 0,
        p * wb >= sb * v,
        sa * wb >= sb * wa,
    ensures
        (sa + p) * (wa + wb) >= (sa + sb) * (wa + v),
{
    let x = sa * (wb - v) + (p - sb) * wa;
    assert(x * wb == (sa * wb) * (wb - v) + (p * wb) * wa - (sb * wb) * wa) by (nonlinear_arith)
        requires
            x == sa * (wb - v) + (p - sb) * wa,
    ;
    assert((sa * wb) * (wb - v) >= (sb * wa) * (wb - v)) by (nonlinear_arith)
        requires
            sa * wb >= sb * wa,
            v <= wb,
    ;
    assert((p * wb) * wa >= (sb * v) * wa) by (nonlinear_arith)
        requires
            p * wb >= sb * v,
            wa > 0,
    ;
    assert((sb * wa) * (wb - v) + (sb * v) * wa - (sb * wb) * wa == 0) by (nonlinear_arith);
    assert(x >= 0) by (nonlinear_arith)
        requires
            x * wb >= 0,
            wb > 0,
    ;
    assert((sa + p) * (wa + wb) - (sa + sb) * (wa + v) == x + (p * wb - sb * v))
        by (nonlinear_arith)
        requires
            x == sa * (wb - v) + (p - sb) * wa,
    ;
}

/// Two neighbouring blocks, the first of which lies higher, pool into one.
proof fn lemma_pooled(xs: Seq<u64>, ws: Seq<u64>, a: Block, b: Block, c: Block)
    requires
        is_block(xs, ws, a),
        is_block(xs, ws, b),
        b.start == a.start + a.len,
        b.sum * a.weight <= a.sum * b.weight,
        c.start == a.start,
        c.len == a.len + b.len,
        c.sum == a.sum + b.sum,
        c.weight == a.weight + b.weight,
    ensures
        is_block(xs, ws, c),
{
    let lo = a.start as int;
    let mid = b.start as int;
    let hi = mid + b.len;
    lemma_sum_splits(xs, ws, lo, mid, hi);
    lemma_weight_splits(ws, lo, mid, hi);
    assert forall|k: int| lo <= k <= hi implies #[trigger] range_sum(xs, ws, lo, k) * c.weight
        >= c.sum * range_weight(ws, lo, k) by {
        if k <= mid {
            let p = range_sum(xs, ws, lo, k) as int;
            let v = range_weight(ws, lo, k) as int;
            assert(range_sum(xs, ws, lo, k) * a.weight >= a.sum * range_weight(ws, lo, k));
            lemma_pool_first(
                p,
                v,
                a.sum as int,
                a.weight as int,
                b.sum as int,
                b.weight as int,
            );
        } else {
            lemma_sum_splits(xs, ws, lo, mid, k);
            lemma_weight_splits(ws, lo, mid, k);
            lemma_weight_splits(ws, mid, k, hi);
            let p = range_sum(xs, ws, mid, k) as int;
            let v = range_weight(ws, mid, k) as int;
            assert(range_sum(xs, ws, mid, k) * b.weight >= b.sum * range_weight(ws, mid, k));
            lemma_pool_second(
                p,
                v,
                a.sum as int,
                a.weight as int,
                b.sum as int,
                b.weight as int,
            );
        }
    }
}

/// Whether `a` lies no higher than `b`.
fn not_above(a: &Block, b: &Block) -> (r: bool)
    requires
        a.sum <= 0xffff_ffff_ffff_ffff * a.weight,
        b.sum <= 0xffff_ffff_ffff_ffff * b.weight,
        a.weight <= u32::MAX,
        b.weight <= u32::MAX,
    ensures
        r == block_le(*a, *b),
{
    proof {
        lemma_cross_fits(a.sum as int, a.weight as int, b.weight as int);
        lemma_cross_fits(b.sum as int, b.weight as int, a.weight as int);
    }
    a.sum * (b.weight as u128) <= b.sum * (a.weight as u128)
}

proof fn lemma_cross_fits(sum: int, weight: int, other: int)
    requires
        0 <= sum <= 0xffff_ffff_ffff_ffff * weight,
        0 <= weight <= 0xffff_ffff,
        0 <= other <= 0xffff_ffff,
    ensures
        0 <= sum * other <= u128::MAX,
{
    assert(0 <= sum * other <= 0xffff_ffff_ffff_ffff * 0xffff_ffff * 0xffff_ffff)
        by (nonlinear_arith)
        requires
            0 <= sum <= 0xffff_ffff_ffff_ffff * 0xffff_ffff,
            0 <= other <= 0xffff_ffff,
    ;
}

/// Fits a non-decreasing curve to weighted values by pooling neighbours that fall.
/// A weight of zero counts as one.
pub fn pava(xs: &Vec<u64>, ws: &Vec<u64>) -> (r: Vec<Block>)
    requires
        xs@.len() == ws@.len(),
        range_weight(ws@, 0, ws@.len() as int) <= u32::MAX,
    ensures
        is_fit(xs@, ws@, r@),
{
    let n: usize = xs.len();
    let mut blocks: Vec<Block> = Vec::new();
    let mut i: usize = 0;
    while i < n
        invariant
            n == xs@.len() == ws@.len(),
            range_weight(ws@, 0, n as int) <= u32::MAX,
            i <= n,
            covers(blocks@, i as int),
            rises(blocks@),
            forall|k: int| 0 <= k < blocks@.len() ==> is_block(xs@, ws@, #[trigger] blocks@[k]),
        decreases n - i,
    {
        let w: u64 = if ws[i] > 0 {
            ws[i]
        } else {
            1
        };
        let x: u64 = xs[i];
        let ghost one = i as int;
        proof {
            assert(w == weight_at(ws@, one));
            assert(range_weight(ws@, one, one) == 0);
            assert(range_weight(ws@, one, one + 1) == w);
            assert(range_sum(xs@, ws@, one, one) == 0);
            assert(range_sum(xs@, ws@, one, one + 1) == x as nat * w as nat);
            assert(0 <= x * w <= 0xffff_ffff_ffff_ffff * 0xffff_ffff_ffff_ffff)
                by (nonlinear_arith)
                requires
                    0 <= x <= 0xffff_ffff_ffff_ffff,
                    0 <= w <= 0xffff_ffff_ffff_ffff,
            ;
        }
        let mut last = Block { start: i, len: 1, sum: x as u128 * w as u128, weight: w };
        proof {
            assert forall|k: int|
                last.start <= k <= last.start + last.len implies #[trigger] range_sum(
                xs@,
                ws@,
                last.start as int,
                k,
            ) * last.weight >= last.sum * range_weight(ws@, last.start as int, k) by {
                if k == one {
                    assert(range_sum(xs@, ws@, one, k) == 0 && range_weight(ws@, one, k) == 0);
                } else {
                    assert(k == one + 1);
                }
            }
        }
        while blocks.len() > 0
            invariant
                n == xs@.len() == ws@.len(),
                range_weight(ws@, 0, n as int) <= u32::MAX,
                i < n,
                covers(blocks@, last.start as int),
                rises(blocks@),
                forall|k: int|
                    0 <= k < blocks@.len() ==> is_block(xs@, ws@, #[trigger] blocks@[k]),
                is_block(xs@, ws@, last),
                last.start + last.len == i + 1,
            ensures
                covers(blocks@, last.start as int),
                rises(blocks@),
                forall|k: int|
                    0 <= k < blocks@.len() ==> is_block(xs@, ws@, #[trigger] blocks@[k]),
                is_block(xs@, ws@, last),
                last.start + last.len == i + 1,
                blocks@.len() > 0 ==> block_le(blocks@[blocks@.len() - 1], last),
            decreases blocks@.len(),
        {
            let top = blocks[blocks.len() - 1];
            proof {
                let s = top.start as int;
                let m = last.start as int;
                assert(is_block(xs@, ws@, blocks@[blocks@.len() - 1]));
                lemma_sum_bound(xs@, ws@, s, s + top.len);
                lemma_sum_bound(xs@, ws@, m, m + last.len);
                lemma_weight_within(ws@, s, s + top.len, n as int);
                lemma_weight_within(ws@, m, m + last.len, n as int);
                lemma_weight_within(ws@, s, m + last.len, n as int);
                lemma_weight_splits(ws@, s, m, m + last.len);
            }
            if not_above(&top, &last) {
                break;
            }
            let ghost before = blocks@;
            blocks.pop();
            let pooled = Block {
                start: top.start,
                len: top.len + last.len,
                sum: top.sum + last.sum,
                weight: top.weight + last.weight,
            };
            proof {
                lemma_pooled(xs@, ws@, top, last, pooled);
                assert(blocks@ =~= before.drop_last());
                if blocks@.len() > 0 {
                    assert(before[before.len() - 1].start == before[before.len() - 2].start
                        + before[before.len() - 2].len);
                }
                assert forall|a: int, b: int|
                    #![trigger blocks@[a], blocks@[b]]
                    0 <= a <= b < blocks@.len() implies block_le(blocks@[a], blocks@[b]) by {
                    assert(block_le(before[a], before[b]));
                }
            }
            last = pooled;
        }
        let ghost kept = blocks@;
        blocks.push(last);
        proof {
            assert forall|a: int, b: int|
                #![trigger blocks@[a], blocks@[b]]
                0 <= a <= b < blocks@.len() implies block_le(blocks@[a], blocks@[b]) by {
                if b < kept.len() {
                    assert(block_le(kept[a], kept[b]));
                } else if a < kept.len() {
                    assert(block_le(kept[a], kept[kept.len() - 1]));
                    assert(is_block(xs@, ws@, kept[a]));
                    assert(is_block(xs@, ws@, kept[kept.len() - 1]));
                    lemma_le_transitive(kept[a], kept[kept.len() - 1], last);
                }
            }
        }
        i = i + 1;
    }
    blocks
}

// ----------------------------------------------------- how close it is

/// How far a curve `z / d` lies from the values at the points `lo .. hi`: the
/// weighted squares of the differences, scaled by `d * d`.
pub open spec fn misfit(
    xs: Seq<u64>,
    ws: Seq<u64>,
    z: spec_fn(int) -> int,
    d: int,
    lo: int,
    hi: int,
) -> int
    decreases hi - lo,
{
    if hi <= lo {
        0
    } else {
        misfit(xs, ws, z, d, lo, hi - 1) + weight_at(ws, hi - 1) * ((xs[hi - 1] * d - z(hi - 1)) * (
        xs[hi - 1] * d - z(hi - 1)))
    }
}

/// The mixed part of the squares when a level and a rising curve are compared.
spec fn mixed(
    xs: Seq<u64>,
    ws: Seq<u64>,
    b: Block,
    z: spec_fn(int) -> int,
    d: int,
    lo: int,
    hi: int,
) -> int
    decreases hi - lo,
{
    if hi <= lo {
        0
    } else {
        mixed(xs, ws, b, z, d, lo, hi - 1) + weight_at(ws, hi - 1) * ((xs[hi - 1] * b.weight
            - b.sum) * (d * b.sum - b.weight * z(hi - 1)))
    }
}

/// The squares of the differences between a level and a rising curve.
spec fn apart(
    ws: Seq<u64>,
    b: Block,
    z: spec_fn(int) -> int,
    d: int,
    lo: int,
    hi: int,
) -> int
    decreases hi - lo,
{
    if hi <= lo {
        0
    } else {
        apart(ws, b, z, d, lo, hi - 1) + weight_at(ws, hi - 1) * ((d * b.sum - b.weight * z(hi - 1))
            * (d * b.sum - b.weight * z(hi - 1)))
    }
}

proof fn lemma_square_split(w: int, x: int, big: int, s: int, d: int, z: int)
    ensures
        big * big * (w * ((x * d - z) * (x * d - z))) == d * d * (w * ((x * big - s) * (x * big - s)))
            + 2 * d * (w * ((x * big - s) * (d * s - big * z))) + w * ((d * s - big * z) * (d * s
            - big * z)),
{
    let a = x * big - s;
    let c = d * s - big * z;
    let y = x * d - z;
    assert(big * y == d * a + c) by (nonlinear_arith)
        requires
            a == x * big - s,
            c == d * s - big * z,
            y == x * d - z,
    ;
    assert((big * y) * (big * y) == d * d * (a * a) + 2 * d * (a * c) + c * c) by (nonlinear_arith)
        requires
            big * y == d * a + c,
    ;
    let aa = a * a;
    let ac = a * c;
    let cc = c * c;
    let yy = y * y;
    assert((big * y) * (big * y) == big * big * yy) by (nonlinear_arith)
        requires
            yy == y * y,
    ;
    assert(big * big * (w * yy) == w * (big * big * yy)) by (nonlinear_arith);
    assert(w * (d * d * aa + 2 * d * ac + cc) == d * d * (w * aa) + 2 * d * (w * ac) + w * cc)
        by (nonlinear_arith);
}

proof fn lemma_misfit_splits(
    xs: Seq<u64>,
    ws: Seq<u64>,
    b: Block,
    z: spec_fn(int) -> int,
    d: int,
    lo: int,
    hi: int,
)
    ensures
        ({
            let level = |i: int| b.sum as int;
            let big = b.weight as int;
            &&& big * big * misfit(xs, ws, z, d, lo, hi) == d * d * misfit(
                xs,
                ws,
                level,
                big,
                lo,
                hi,
            ) + 2 * d * mixed(xs, ws, b, z, d, lo, hi) + apart(ws, b, z, d, lo, hi)
            &&& apart(ws, b, z, d, lo, hi) >= 0
        }),
    decreases hi - lo,
{
    let level = |i: int| b.sum as int;
    let big = b.weight as int;
    if lo < hi {
        lemma_misfit_splits(xs, ws, b, z, d, lo, hi - 1);
        let w = weight_at(ws, hi - 1) as int;
        let x = xs[hi - 1] as int;
        lemma_square_split(w, x, big, b.sum as int, d, z(hi - 1));
        let m0 = misfit(xs, ws, z, d, lo, hi - 1);
        let m1 = w * ((x * d - z(hi - 1)) * (x * d - z(hi - 1)));
        let l0 = misfit(xs, ws, level, big, lo, hi - 1);
        let l1 = w * ((x * big - b.sum) * (x * big - b.sum));
        let x0 = mixed(xs, ws, b, z, d, lo, hi - 1);
        let x1 = w * ((x * big - b.sum) * (d * b.sum - big * z(hi - 1)));
        let c = d * b.sum - big * z(hi - 1);
        assert(big * big * (m0 + m1) == big * big * m0 + big * big * m1) by (nonlinear_arith);
        assert(d * d * (l0 + l1) == d * d * l0 + d * d * l1) by (nonlinear_arith);
        assert(2 * d * (x0 + x1) == 2 * d * x0 + 2 * d * x1) by (nonlinear_arith);
        assert(w * (c * c) >= 0) by (nonlinear_arith)
            requires
                w >= 0,
        ;
        assert(misfit(xs, ws, z, d, lo, hi) == m0 + m1);
        assert(misfit(xs, ws, level, big, lo, hi) == l0 + l1);
        assert(mixed(xs, ws, b, z, d, lo, hi) == x0 + x1);
        assert(apart(ws, b, z, d, lo, hi) == apart(ws, b, z, d, lo, hi - 1) + w * (c * c));
    } else {
        assert(big * big * 0 == 0) by (nonlinear_arith);
        assert(d * d * 0 + 2 * d * 0 + 0 == 0) by (nonlinear_arith);
    }
}

/// How far the points `lo .. k` lie above the level of a block, in all.
spec fn above(xs: Seq<u64>, ws: Seq<u64>, b: Block, k: int) -> int {
    range_sum(xs, ws, b.start as int, k) * b.weight - b.sum * range_weight(ws, b.start as int, k)
}

proof fn lemma_mixed_bound(
    xs: Seq<u64>,
    ws: Seq<u64>,
    b: Block,
    z: spec_fn(int) -> int,
    d: int,
    hi: int,
)
    requires
        is_block(xs, ws, b),
        b.start < hi <= b.start + b.len,
        forall|i: int, j: int|
            b.start <= i <= j < b.start + b.len ==> #[trigger] z(i) <= #[trigger] z(j),
    ensures
        mixed(xs, ws, b, z, d, b.start as int, hi) >= above(xs, ws, b, hi) * (d * b.sum - b.weight
            * z(hi - 1)),
    decreases hi,
{
    let lo = b.start as int;
    let w = weight_at(ws, hi - 1) as int;
    let x = xs[hi - 1] as int;
    let big = b.weight as int;
    let s = b.sum as int;
    let a = x * big - s;
    let c = d * s - big * z(hi - 1);
    let s0 = range_sum(xs, ws, lo, hi - 1) as int;
    let w0 = range_weight(ws, lo, hi - 1) as int;
    // What the last point adds to the excess.
    assert((s0 + x * w) * big - s * (w0 + w) == (s0 * big - s * w0) + w * a) by (nonlinear_arith)
        requires
            a == x * big - s,
    ;
    let p0 = above(xs, ws, b, hi - 1);
    let p1 = above(xs, ws, b, hi);
    assert(p1 == p0 + w * a);
    assert(range_sum(xs, ws, lo, hi - 1) * b.weight >= b.sum * range_weight(ws, lo, hi - 1));
    assert(p0 >= 0);
    let m0 = mixed(xs, ws, b, z, d, lo, hi - 1);
    assert(mixed(xs, ws, b, z, d, lo, hi) == m0 + w * (a * c));
    assert((p0 + w * a) * c == p0 * c + w * (a * c)) by (nonlinear_arith);
    if hi - 1 == lo {
        assert(p0 == 0) by {
            assert(range_sum(xs, ws, lo, lo) == 0);
            assert(range_weight(ws, lo, lo) == 0);
            assert(0 * big - s * 0 == 0) by (nonlinear_arith);
        }
        assert(p0 * c == 0) by (nonlinear_arith)
            requires
                p0 == 0,
        ;
    } else {
        lemma_mixed_bound(xs, ws, b, z, d, hi - 1);
        let c0 = d * s - big * z(hi - 2);
        assert(z(hi - 2) <= z(hi - 1));
        assert(big * z(hi - 2) <= big * z(hi - 1)) by (nonlinear_arith)
            requires
                z(hi - 2) <= z(hi - 1),
                big >= 0,
        ;
        assert(p0 * c0 >= p0 * c) by (nonlinear_arith)
            requires
                p0 >= 0,
                c0 >= c,
        ;
    }
}

/// On a stretch that the fit holds level, no non-decreasing curve `z / d` lies
/// closer to the values. Both sides are scaled by the squares of both
/// denominators.
proof fn lemma_block_is_closest(
    xs: Seq<u64>,
    ws: Seq<u64>,
    b: Block,
    z: spec_fn(int) -> int,
    d: int,
)
    requires
        is_block(xs, ws, b),
        d > 0,
        forall|i: int, j: int|
            b.start <= i <= j < b.start + b.len ==> #[trigger] z(i) <= #[trigger] z(j),
    ensures
        d * d * misfit(
            xs,
            ws,
            |i: int| b.sum as int,
            b.weight as int,
            b.start as int,
            b.start + b.len,
        ) <= b.weight * b.weight * misfit(xs, ws, z, d, b.start as int, b.start + b.len),
{
    let lo = b.start as int;
    let hi = b.start + b.len;
    let level = |i: int| b.sum as int;
    let big = b.weight as int;
    lemma_misfit_splits(xs, ws, b, z, d, lo, hi);
    lemma_mixed_bound(xs, ws, b, z, d, hi);
    let c = d * b.sum - b.weight * z(hi - 1);
    assert(above(xs, ws, b, hi) == 0) by {
        assert(b.sum * b.weight - b.sum * b.weight == 0);
    }
    assert(0 * c == 0) by (nonlinear_arith);
    let m = mixed(xs, ws, b, z, d, lo, hi);
    assert(2 * d * m >= 0) by (nonlinear_arith)
        requires
            d > 0,
            m >= 0,
    ;
}

// ----------------------------------------------------------- the curve

/// The level of a block.
pub open spec fn level_of(b: Block) -> Mean {
    Mean { num: b.sum, den: b.weight }
}

/// Whether one mean is no more than another.
pub open spec fn mean_le(a: Mean, b: Mean) -> bool {
    a.num * b.den <= b.num * a.den
}

/// Whether `i` lies in block `k`.
pub open spec fn lies_in(blocks: Seq<Block>, k: int, i: int) -> bool {
    0 <= k < blocks.len() && blocks[k].start <= i < blocks[k].start + blocks[k].len
}

/// Whether `i` lies in some block.
pub open spec fn placed(blocks: Seq<Block>, i: int) -> bool {
    exists|k: int| #[trigger] lies_in(blocks, k, i)
}

/// Whether each point has the level of the block it lies in.
pub open spec fn has_levels(blocks: Seq<Block>, levels: Seq<Mean>) -> bool {
    forall|k: int, i: int| #[trigger]
        lies_in(blocks, k, i) ==> 0 <= i < levels.len() && levels[i] == level_of(blocks[k])
}

proof fn lemma_block_order(blocks: Seq<Block>, end: int, i: int, j: int)
    requires
        covers(blocks, end),
        0 <= i < j < blocks.len(),
        forall|k: int| 0 <= k < blocks.len() ==> (#[trigger] blocks[k]).len > 0,
    ensures
        blocks[i].start + blocks[i].len <= blocks[j].start,
    decreases j,
{
    assert(blocks[j].start == blocks[j - 1].start + blocks[j - 1].len);
    if i < j - 1 {
        lemma_block_order(blocks, end, i, j - 1);
    }
}

/// The level at every point.
fn levels(blocks: &Vec<Block>, n: usize) -> (r: Vec<Mean>)
    requires
        covers(blocks@, n as int),
        forall|k: int| 0 <= k < blocks@.len() ==> (#[trigger] blocks@[k]).len > 0,
    ensures
        r@.len() == n,
        has_levels(blocks@, r@),
        forall|i: int| 0 <= i < n ==> #[trigger] placed(blocks@, i),
{
    let mut out: Vec<Mean> = Vec::new();
    let mut k: usize = 0;
    while k < blocks.len()
        invariant
            covers(blocks@, n as int),
            forall|j: int| 0 <= j < blocks@.len() ==> (#[trigger] blocks@[j]).len > 0,
            k <= blocks@.len(),
            k < blocks@.len() ==> out@.len() == blocks@[k as int].start,
            k == blocks@.len() ==> out@.len() == n,
            forall|j: int, i: int| #[trigger]
                lies_in(blocks@, j, i) && j < k ==> i < out@.len() && out@[i] == level_of(
                    blocks@[j],
                ),
            forall|i: int| 0 <= i < out@.len() ==> #[trigger] placed(blocks@, i),
        decreases blocks@.len() - k,
    {
        let b = blocks[k];
        let ghost before = out@;
        let mut done: usize = 0;
        while done < b.len
            invariant
                done <= b.len,
                b == blocks@[k as int],
                k < blocks@.len(),
                before.len() == b.start,
                out@.len() == b.start + done,
                forall|i: int| 0 <= i < before.len() ==> #[trigger] out@[i] == before[i],
                forall|i: int| b.start <= i < out@.len() ==> #[trigger] out@[i] == level_of(b),
            decreases b.len - done,
        {
            out.push(Mean { num: b.sum, den: b.weight });
            done = done + 1;
        }
        proof {
            assert forall|j: int, i: int| #[trigger] lies_in(blocks@, j, i) && j < k + 1 implies i
                < out@.len() && out@[i] == level_of(blocks@[j]) by {
                if j < k {
                    assert(before[i] == level_of(blocks@[j]));
                }
            }
            assert forall|i: int| 0 <= i < out@.len() implies #[trigger] placed(blocks@, i) by {
                if i >= before.len() {
                    assert(lies_in(blocks@, k as int, i));
                }
            }
            if k + 1 < blocks@.len() {
                assert(blocks@[k + 1].start == blocks@[k as int].start + blocks@[k as int].len);
            }
        }
        k = k + 1;
    }
    out
}

/// The second-class prices of a curve.
pub open spec fn second_class(curve: Seq<DistanceRow>) -> Seq<u64> {
    Seq::new(curve.len(), |i: int| curve[i].median2)
}

/// The first-class prices of the first `k` rows. First class is missing at a few
/// distances; the last value is carried forward there.
pub open spec fn first_class(curve: Seq<DistanceRow>, k: nat) -> Seq<u64>
    decreases k,
{
    if k == 0 {
        Seq::empty()
    } else {
        let rest = first_class(curve, (k - 1) as nat);
        rest.push(
            match curve[k - 1].median1 {
                Some(p) => p,
                None => if rest.len() == 0 {
                    0
                } else {
                    rest.last()
                },
            },
        )
    }
}

/// How many relations sit at each distance.
pub open spec fn row_weights(curve: Seq<DistanceRow>) -> Seq<u64> {
    Seq::new(curve.len(), |i: int| curve[i].n as u64)
}

/// The second-class and first-class levels of a list of points.
pub open spec fn second_levels(points: Seq<CurvePoint>) -> Seq<Mean> {
    Seq::new(points.len(), |i: int| points[i].p2)
}

pub open spec fn first_levels(points: Seq<CurvePoint>) -> Seq<Mean> {
    Seq::new(points.len(), |i: int| points[i].p1)
}

/// Whether levels are the isotonic fit of weighted values, each point at the
/// level of its block.
pub open spec fn is_monotone_fit(xs: Seq<u64>, ws: Seq<u64>, levels: Seq<Mean>) -> bool {
    &&& levels.len() == xs.len()
    &&& exists|blocks: Seq<Block>| #[trigger] is_fit(xs, ws, blocks) && has_levels(blocks, levels)
    &&& forall|i: int, j: int|
        #![trigger levels[i], levels[j]]
        0 <= i <= j < levels.len() ==> mean_le(levels[i], levels[j])
}

/// What a stretch and the next one add to the misfit.
proof fn lemma_misfit_joins(
    xs: Seq<u64>,
    ws: Seq<u64>,
    z: spec_fn(int) -> int,
    d: int,
    lo: int,
    mid: int,
    hi: int,
)
    requires
        lo <= mid <= hi,
    ensures
        misfit(xs, ws, z, d, lo, hi) == misfit(xs, ws, z, d, lo, mid) + misfit(
            xs,
            ws,
            z,
            d,
            mid,
            hi,
        ),
    decreases hi - mid,
{
    if mid < hi {
        lemma_misfit_joins(xs, ws, z, d, lo, mid, hi - 1);
    }
}

/// The misfit of one level, written over another denominator.
proof fn lemma_misfit_rescales(
    xs: Seq<u64>,
    ws: Seq<u64>,
    y: spec_fn(int) -> int,
    d: int,
    sum: int,
    big: int,
    lo: int,
    hi: int,
)
    requires
        forall|i: int| lo <= i < hi ==> #[trigger] y(i) * big == sum * d,
    ensures
        big * big * misfit(xs, ws, y, d, lo, hi) == d * d * misfit(
            xs,
            ws,
            |i: int| sum,
            big,
            lo,
            hi,
        ),
    decreases hi - lo,
{
    let level = |i: int| sum;
    if lo < hi {
        lemma_misfit_rescales(xs, ws, y, d, sum, big, lo, hi - 1);
        let x = xs[hi - 1] as int;
        let v = weight_at(ws, hi - 1) as int;
        let yi = y(hi - 1);
        assert(yi * big == sum * d);
        let m = misfit(xs, ws, y, d, lo, hi - 1);
        let l = misfit(xs, ws, level, big, lo, hi - 1);
        let p = x * d - yi;
        let q = x * big - sum;
        assert(big * p == d * q) by (nonlinear_arith)
            requires
                p == x * d - yi,
                q == x * big - sum,
                yi * big == sum * d,
        ;
        assert(big * big * (p * p) == d * d * (q * q)) by (nonlinear_arith)
            requires
                big * p == d * q,
        ;
        assert(big * big * (m + v * (p * p)) == d * d * (l + v * (q * q))) by (nonlinear_arith)
            requires
                big * big * m == d * d * l,
                big * big * (p * p) == d * d * (q * q),
        ;
    } else {
        assert(big * big * 0 == d * d * 0) by (nonlinear_arith);
    }
}

proof fn lemma_closest_up_to(
    xs: Seq<u64>,
    ws: Seq<u64>,
    blocks: Seq<Block>,
    levels: Seq<Mean>,
    y: spec_fn(int) -> int,
    z: spec_fn(int) -> int,
    d: int,
    k: int,
)
    requires
        is_fit(xs, ws, blocks),
        has_levels(blocks, levels),
        levels.len() == xs.len(),
        d > 0,
        0 <= k < blocks.len(),
        forall|i: int|
            0 <= i < xs.len() ==> #[trigger] y(i) * levels[i].den == levels[i].num * d,
        forall|i: int, j: int|
            0 <= i <= j < xs.len() ==> #[trigger] z(i) <= #[trigger] z(j),
    ensures
        misfit(xs, ws, y, d, 0, blocks[k].start + blocks[k].len) <= misfit(
            xs,
            ws,
            z,
            d,
            0,
            blocks[k].start + blocks[k].len,
        ),
    decreases k,
{
    let b = blocks[k];
    let lo = b.start as int;
    let hi = b.start + b.len;
    assert(is_block(xs, ws, b));
    if k > 0 {
        lemma_closest_up_to(xs, ws, blocks, levels, y, z, d, k - 1);
        assert(blocks[k].start == blocks[k - 1].start + blocks[k - 1].len);
    }
    let big = b.weight as int;
    assert forall|i: int| lo <= i < hi implies #[trigger] y(i) * big == b.sum * d by {
        assert(lies_in(blocks, k, i));
        assert(levels[i] == level_of(b));
    }
    lemma_misfit_joins(xs, ws, y, d, 0, lo, hi);
    lemma_misfit_joins(xs, ws, z, d, 0, lo, hi);
    lemma_misfit_rescales(xs, ws, y, d, b.sum as int, big, lo, hi);
    lemma_block_is_closest(xs, ws, b, z, d);
    let fit = misfit(xs, ws, y, d, lo, hi);
    let other = misfit(xs, ws, z, d, lo, hi);
    assert(misfit(xs, ws, |i: int| b.sum as int, big, lo, hi) == misfit(
        xs,
        ws,
        |i: int| b.sum as int,
        b.weight as int,
        b.start as int,
        b.start + b.len,
    ));
    assert(fit <= other) by (nonlinear_arith)
        requires
            big * big * fit <= big * big * other,
            big > 0,
    ;
}

/// The fitted curve is the closest one that never falls: written over any common
/// denominator `d`, no non-decreasing curve `z / d` has a smaller weighted squared
/// distance to the values than the fit `y / d`.
pub proof fn law_fit_is_closest(
    xs: Seq<u64>,
    ws: Seq<u64>,
    levels: Seq<Mean>,
    y: spec_fn(int) -> int,
    z: spec_fn(int) -> int,
    d: int,
)
    requires
        is_monotone_fit(xs, ws, levels),
        d > 0,
        forall|i: int|
            0 <= i < xs.len() ==> #[trigger] y(i) * levels[i].den == levels[i].num * d,
        forall|i: int, j: int|
            0 <= i <= j < xs.len() ==> #[trigger] z(i) <= #[trigger] z(j),
    ensures
        misfit(xs, ws, y, d, 0, xs.len() as int) <= misfit(xs, ws, z, d, 0, xs.len() as int),
{
    let blocks = choose|blocks: Seq<Block>|
        #[trigger] is_fit(xs, ws, blocks) && has_levels(blocks, levels);
    if blocks.len() > 0 {
        lemma_closest_up_to(xs, ws, blocks, levels, y, z, d, blocks.len() - 1);
    }
}

fn fitted(xs: &Vec<u64>, ws: &Vec<u64>) -> (r: Vec<Mean>)
    requires
        xs@.len() == ws@.len(),
        range_weight(ws@, 0, ws@.len() as int) <= u32::MAX,
    ensures
        is_monotone_fit(xs@, ws@, r@),
{
    let blocks = pava(xs, ws);
    proof {
        assert forall|k: int| 0 <= k < blocks@.len() implies (#[trigger] blocks@[k]).len > 0 by {
            assert(is_block(xs@, ws@, blocks@[k]));
        }
    }
    let r = levels(&blocks, xs.len());
    proof {
        assert forall|i: int, j: int|
            #![trigger r@[i], r@[j]]
            0 <= i <= j < r@.len() implies mean_le(r@[i], r@[j]) by {
            assert(placed(blocks@, i) && placed(blocks@, j));
            let a = choose|a: int| #[trigger] lies_in(blocks@, a, i);
            let b = choose|b: int| #[trigger] lies_in(blocks@, b, j);
            if a > b {
                lemma_block_order(blocks@, xs@.len() as int, b, a);
            }
            assert(block_le(blocks@[a], blocks@[b]));
        }
        assert(is_fit(xs@, ws@, blocks@));
    }
    r
}

/// The closest price curve that never falls, in both classes.
pub fn isotonic_curve(curve: &Vec<DistanceRow>) -> (r: Vec<CurvePoint>)
    requires
        range_weight(row_weights(curve@), 0, curve@.len() as int) <= u32::MAX,
    ensures
        r@.len() == curve@.len(),
        forall|i: int| 0 <= i < r@.len() ==> (#[trigger] r@[i]).km == curve@[i].km,
        is_monotone_fit(second_class(curve@), row_weights(curve@), second_levels(r@)),
        is_monotone_fit(
            first_class(curve@, curve@.len()),
            row_weights(curve@),
            first_levels(r@),
        ),
{
    let n: usize = curve.len();
    let mut ws: Vec<u64> = Vec::new();
    let mut second: Vec<u64> = Vec::new();
    let mut first: Vec<u64> = Vec::new();
    let mut last: u64 = 0;
    let mut i: usize = 0;
    while i < n
        invariant
            n == curve@.len(),
            i <= n,
            ws@ == row_weights(curve@).take(i as int),
            second@ == second_class(curve@).take(i as int),
            first@ == first_class(curve@, i as nat),
            first@.len() == i,
            last == if i == 0 {
                0
            } else {
                first@[i - 1]
            },
        decreases n - i,
    {
        let row = curve[i];
        ws.push(row.n as u64);
        second.push(row.median2);
        if let Some(p) = row.median1 {
            last = p;
        }
        first.push(last);
        assert(ws@ =~= row_weights(curve@).take(i + 1));
        assert(second@ =~= second_class(curve@).take(i + 1));
        i = i + 1;
    }
    assert(ws@ =~= row_weights(curve@));
    assert(second@ =~= second_class(curve@));
    let p2 = fitted(&second, &ws);
    let p1 = fitted(&first, &ws);
    let mut out: Vec<CurvePoint> = Vec::new();
    let mut k: usize = 0;
    while k < n
        invariant
            n == curve@.len(),
            n == p2@.len(),
            n == p1@.len(),
            k <= n,
            out@.len() == k,
            forall|j: int|
                0 <= j < k ==> (#[trigger] out@[j]).km == curve@[j].km && out@[j].p2 == p2@[j]
                    && out@[j].p1 == p1@[j],
        decreases n - k,
    {
        out.push(CurvePoint { km: curve[k].km, p2: p2[k], p1: p1[k] });
        k = k + 1;
    }
    assert(second_levels(out@) =~= p2@);
    assert(first_levels(out@) =~= p1@);
    out
}

/// Whether the fit moved the second-class price at one distance by more than the
/// `fineness`-th part of a unit.
pub open spec fn is_moved(row: DistanceRow, point: CurvePoint, fineness: u32) -> bool {
    let gap = row.median2 * point.p2.den - point.p2.num;
    gap * fineness > point.p2.den || -gap * fineness > point.p2.den
}

/// How many of the first `k` distances the fit moved by more than the `fineness`-th
/// part of a unit.
pub open spec fn moved_count(
    curve: Seq<DistanceRow>,
    points: Seq<CurvePoint>,
    fineness: u32,
    k: nat,
) -> nat
    decreases k,
{
    if k == 0 {
        0
    } else {
        moved_count(curve, points, fineness, (k - 1) as nat) + if is_moved(
            curve[k - 1],
            points[k - 1],
            fineness,
        ) {
            1nat
        } else {
            0
        }
    }
}

/// Counts the distances at which the fit moved the second-class price by more than
/// the `fineness`-th part of a unit.
pub fn count_moved(curve: &Vec<DistanceRow>, points: &Vec<CurvePoint>, fineness: u32) -> (r: usize)
    requires
        curve@.len() == points@.len(),
        fineness > 0,
    ensures
        r == moved_count(curve@, points@, fineness, curve@.len()),
{
    let mut moved: usize = 0;
    let mut i: usize = 0;
    while i < curve.len()
        invariant
            curve@.len() == points@.len(),
            fineness > 0,
            i <= curve@.len(),
            moved <= i,
            moved == moved_count(curve@, points@, fineness, i as nat),
        decreases curve@.len() - i,
    {
        let price: u64 = curve[i].median2;
        let den: u64 = points[i].p2.den;
        let num: u128 = points[i].p2.num;
        assert(0 <= price * den <= 0xffff_ffff_ffff_ffff * 0xffff_ffff_ffff_ffff)
            by (nonlinear_arith)
            requires
                0 <= price <= 0xffff_ffff_ffff_ffff,
                0 <= den <= 0xffff_ffff_ffff_ffff,
        ;
        let whole: u128 = price as u128 * den as u128;
        let gap: u128 = if whole < num {
            num - whole
        } else {
            whole - num
        };
        let part: u128 = den as u128 / fineness as u128;
        proof {
            let signed = whole - num;
            assert(gap == signed || gap == -signed);
            assert((gap > part) == (gap * fineness > den)) by (nonlinear_arith)
                requires
                    fineness > 0,
                    part == den as int / fineness as int,
            ;
            assert(signed * fineness <= gap * fineness && -signed * fineness <= gap * fineness)
                by (nonlinear_arith)
                requires
                    gap >= 0,
                    gap == signed || gap == -signed,
            ;
        }
        if gap > part {
            moved = moved + 1;
        }
        i = i + 1;
    }
    moved
}

// -------------------------------------------------- what the fit means for prices

/// Squared differences added up row by row are the misfit.
proof fn lemma_added_up(
    xs: Seq<u64>,
    ws: Seq<u64>,
    z: Seq<int>,
    d: int,
    off: Seq<int>,
    k: int,
)
    requires
        0 <= k <= xs.len(),
        xs.len() == ws.len(),
        z.len() == xs.len(),
        off.len() == xs.len() + 1,
        off[0] == 0,
        forall|i: int|
            0 <= i < xs.len() ==> #[trigger] off[i + 1] == off[i] + (if ws[i] > 0 {
                ws[i] as int
            } else {
                1
            }) * ((xs[i] * d - z[i]) * (xs[i] * d - z[i])),
    ensures
        off[k] == misfit(xs, ws, |i: int| z[i], d, 0, k),
    decreases k,
{
    if k > 0 {
        lemma_added_up(xs, ws, z, d, off, k - 1);
        assert(off[k - 1 + 1] == off[k]);
        assert(weight_at(ws, k - 1) == if ws[k - 1] > 0 {
            ws[k - 1] as int
        } else {
            1
        });
    }
}

/// The second-class curve never falls and is the closest such curve to the median
/// prices, a row counting as often as it has relations and at least once. Over any
/// common denominator `d`: the squared differences between the medians and the curve,
/// `fit / d`, added up row by row in `off_fit`, come to no more than those of any
/// other curve `other / d` that never falls.
pub proof fn law_second_class_is_closest_to_medians(
    curve: Seq<DistanceRow>,
    points: Seq<CurvePoint>,
    d: int,
    fit: Seq<int>,
    other: Seq<int>,
    off_fit: Seq<int>,
    off_other: Seq<int>,
)
    requires
        is_monotone_fit(second_class(curve), row_weights(curve), second_levels(points)),
        d > 0,
        fit.len() == curve.len(),
        other.len() == curve.len(),
        off_fit.len() == curve.len() + 1,
        off_other.len() == curve.len() + 1,
        forall|i: int|
            0 <= i < curve.len() ==> #[trigger] fit[i] * points[i].p2.den == points[i].p2.num * d,
        forall|i: int, j: int|
            #![trigger other[i], other[j]]
            0 <= i <= j < curve.len() ==> other[i] <= other[j],
        off_fit[0] == 0,
        off_other[0] == 0,
        forall|i: int|
            0 <= i < curve.len() ==> #[trigger] off_fit[i + 1] == off_fit[i] + (if curve[i].n > 0 {
                curve[i].n as int
            } else {
                1
            }) * ((curve[i].median2 * d - fit[i]) * (curve[i].median2 * d - fit[i])),
        forall|i: int|
            0 <= i < curve.len() ==> #[trigger] off_other[i + 1] == off_other[i] + (if curve[i].n
                > 0 {
                curve[i].n as int
            } else {
                1
            }) * ((curve[i].median2 * d - other[i]) * (curve[i].median2 * d - other[i])),
    ensures
        off_fit[curve.len() as int] <= off_other[curve.len() as int],
        points.len() == curve.len(),
        forall|i: int, j: int|
            #![trigger points[i], points[j]]
            0 <= i <= j < points.len() ==> points[i].p2.num * points[j].p2.den
                <= points[j].p2.num * points[i].p2.den,
{
    let xs = second_class(curve);
    let ws = row_weights(curve);
    let levels = second_levels(points);
    lemma_closest_written(xs, ws, levels, d, fit, other, off_fit, off_other);
    assert forall|i: int, j: int|
        #![trigger points[i], points[j]]
        0 <= i <= j < points.len() implies points[i].p2.num * points[j].p2.den <= points[j].p2.num
        * points[i].p2.den by {
        assert(mean_le(levels[i], levels[j]));
    }
}

/// The first-class curve is fitted in the same way. A distance without a first-class
/// median takes that of the distance before it, and nothing where there is none.
pub proof fn law_first_class_is_closest_to_medians(
    curve: Seq<DistanceRow>,
    points: Seq<CurvePoint>,
    firsts: Seq<u64>,
    d: int,
    fit: Seq<int>,
    other: Seq<int>,
    off_fit: Seq<int>,
    off_other: Seq<int>,
)
    requires
        is_monotone_fit(
            first_class(curve, curve.len()),
            row_weights(curve),
            first_levels(points),
        ),
        firsts.len() == curve.len(),
        forall|i: int|
            0 <= i < curve.len() ==> #[trigger] firsts[i] == match curve[i].median1 {
                Some(p) => p,
                None => if i == 0 {
                    0
                } else {
                    firsts[i - 1]
                },
            },
        d > 0,
        fit.len() == curve.len(),
        other.len() == curve.len(),
        off_fit.len() == curve.len() + 1,
        off_other.len() == curve.len() + 1,
        forall|i: int|
            0 <= i < curve.len() ==> #[trigger] fit[i] * points[i].p1.den == points[i].p1.num * d,
        forall|i: int, j: int|
            #![trigger other[i], other[j]]
            0 <= i <= j < curve.len() ==> other[i] <= other[j],
        off_fit[0] == 0,
        off_other[0] == 0,
        forall|i: int|
            0 <= i < curve.len() ==> #[trigger] off_fit[i + 1] == off_fit[i] + (if curve[i].n > 0 {
                curve[i].n as int
            } else {
                1
            }) * ((firsts[i] * d - fit[i]) * (firsts[i] * d - fit[i])),
        forall|i: int|
            0 <= i < curve.len() ==> #[trigger] off_other[i + 1] == off_other[i] + (if curve[i].n
                > 0 {
                curve[i].n as int
            } else {
                1
            }) * ((firsts[i] * d - other[i]) * (firsts[i] * d - other[i])),
    ensures
        off_fit[curve.len() as int] <= off_other[curve.len() as int],
        points.len() == curve.len(),
        forall|i: int, j: int|
            #![trigger points[i], points[j]]
            0 <= i <= j < points.len() ==> points[i].p1.num * points[j].p1.den
                <= points[j].p1.num * points[i].p1.den,
{
    let xs = first_class(curve, curve.len());
    let ws = row_weights(curve);
    let levels = first_levels(points);
    lemma_first_class_written(curve, firsts, curve.len());
    assert(firsts.take(curve.len() as int) =~= firsts);
    lemma_closest_written(xs, ws, levels, d, fit, other, off_fit, off_other);
    assert forall|i: int, j: int|
        #![trigger points[i], points[j]]
        0 <= i <= j < points.len() implies points[i].p1.num * points[j].p1.den <= points[j].p1.num
        * points[i].p1.den by {
        assert(mean_le(levels[i], levels[j]));
    }
}

/// The first-class prices, written row by row.
proof fn lemma_first_class_written(curve: Seq<DistanceRow>, firsts: Seq<u64>, k: nat)
    requires
        k <= curve.len(),
        firsts.len() == curve.len(),
        forall|i: int|
            0 <= i < curve.len() ==> #[trigger] firsts[i] == match curve[i].median1 {
                Some(p) => p,
                None => if i == 0 {
                    0
                } else {
                    firsts[i - 1]
                },
            },
    ensures
        first_class(curve, k) == firsts.take(k as int),
    decreases k,
{
    if k > 0 {
        lemma_first_class_written(curve, firsts, (k - 1) as nat);
        assert(firsts[k - 1] == match curve[k - 1].median1 {
            Some(p) => p,
            None => if k - 1 == 0 {
                0
            } else {
                firsts[k - 2]
            },
        });
        assert(first_class(curve, k) =~= firsts.take(k as int));
    } else {
        assert(first_class(curve, k) =~= firsts.take(0));
    }
}

proof fn lemma_closest_written(
    xs: Seq<u64>,
    ws: Seq<u64>,
    levels: Seq<Mean>,
    d: int,
    fit: Seq<int>,
    other: Seq<int>,
    off_fit: Seq<int>,
    off_other: Seq<int>,
)
    requires
        is_monotone_fit(xs, ws, levels),
        xs.len() == ws.len(),
        d > 0,
        fit.len() == xs.len(),
        other.len() == xs.len(),
        off_fit.len() == xs.len() + 1,
        off_other.len() == xs.len() + 1,
        forall|i: int|
            0 <= i < xs.len() ==> #[trigger] fit[i] * levels[i].den == levels[i].num * d,
        forall|i: int, j: int|
            #![trigger other[i], other[j]]
            0 <= i <= j < xs.len() ==> other[i] <= other[j],
        off_fit[0] == 0,
        off_other[0] == 0,
        forall|i: int|
            0 <= i < xs.len() ==> #[trigger] off_fit[i + 1] == off_fit[i] + (if ws[i] > 0 {
                ws[i] as int
            } else {
                1
            }) * ((xs[i] * d - fit[i]) * (xs[i] * d - fit[i])),
        forall|i: int|
            0 <= i < xs.len() ==> #[trigger] off_other[i + 1] == off_other[i] + (if ws[i] > 0 {
                ws[i] as int
            } else {
                1
            }) * ((xs[i] * d - other[i]) * (xs[i] * d - other[i])),
    ensures
        off_fit[xs.len() as int] <= off_other[xs.len() as int],
{
    let y = |i: int| fit[i];
    let z = |i: int| other[i];
    lemma_added_up(xs, ws, fit, d, off_fit, xs.len() as int);
    lemma_added_up(xs, ws, other, d, off_other, xs.len() as int);
    law_fit_is_closest(xs, ws, levels, y, z, d);
}

/// Values that never fall below `low` add up to at least that, and to more by what
/// one of them lies above it.
proof fn lemma_sum_above(xs: Seq<u64>, ws: Seq<u64>, low: int, lo: int, hi: int, i: int)
    requires
        lo < hi,
        lo <= i < hi,
        forall|j: int| lo <= j < hi ==> low <= #[trigger] xs[j],
    ensures
        range_sum(xs, ws, lo, hi) >= low * range_weight(ws, lo, hi) + (xs[i] - low),
    decreases hi - lo,
{
    let w = weight_at(ws, hi - 1) as int;
    let x = xs[hi - 1] as int;
    let rest = range_sum(xs, ws, lo, hi - 1) as int;
    let before = range_weight(ws, lo, hi - 1) as int;
    assert(low <= xs[hi - 1]);
    assert(low <= xs[i]);
    if hi - 1 == lo {
        assert(rest == 0 && before == 0);
        assert(x * w >= low * w + (x - low)) by (nonlinear_arith)
            requires
                w >= 1,
                x >= low,
        ;
    } else if i == hi - 1 {
        lemma_sum_above(xs, ws, low, lo, hi - 1, lo);
        assert(low <= xs[lo]);
        assert(rest + x * w >= low * (before + w) + (x - low)) by (nonlinear_arith)
            requires
                w >= 1,
                x >= low,
                rest >= low * before,
        ;
    } else {
        lemma_sum_above(xs, ws, low, lo, hi - 1, i);
        let above = xs[i] - low;
        assert(rest + x * w >= low * (before + w) + above) by (nonlinear_arith)
            requires
                w >= 1,
                x >= low,
                rest >= low * before + above,
        ;
    }
}

/// A block of values that never fall is flat.
proof fn lemma_rising_block_is_flat(xs: Seq<u64>, ws: Seq<u64>, b: Block, i: int)
    requires
        is_block(xs, ws, b),
        b.start <= i < b.start + b.len,
        forall|x: int, y: int|
            #![trigger xs[x], xs[y]]
            0 <= x <= y < xs.len() ==> xs[x] <= xs[y],
    ensures
        b.sum == xs[i] * b.weight,
{
    let lo = b.start as int;
    let hi = b.start + b.len;
    let low = xs[lo] as int;
    let w0 = weight_at(ws, lo) as int;
    let big = b.weight as int;
    let sum = b.sum as int;
    assert forall|j: int| lo <= j < hi implies low <= #[trigger] xs[j] by {}
    lemma_sum_above(xs, ws, low, lo, hi, i);
    assert(range_sum(xs, ws, lo, lo) == 0 && range_weight(ws, lo, lo) == 0);
    assert(range_sum(xs, ws, lo, lo + 1) == low * w0);
    assert(range_weight(ws, lo, lo + 1) == w0);
    assert(range_sum(xs, ws, lo, lo + 1) * big >= sum * range_weight(ws, lo, lo + 1));
    assert(low * big >= sum) by (nonlinear_arith)
        requires
            low * w0 * big >= sum * w0,
            w0 >= 1,
    ;
    assert(xs[i] == low);
}

/// A curve that does not fall is not moved: where the second-class medians never fall
/// with distance, every point of the fitted curve is the median of its row.
pub proof fn law_rising_medians_stay(curve: Seq<DistanceRow>, points: Seq<CurvePoint>)
    requires
        is_monotone_fit(second_class(curve), row_weights(curve), second_levels(points)),
        forall|i: int, j: int|
            #![trigger curve[i], curve[j]]
            0 <= i <= j < curve.len() ==> curve[i].median2 <= curve[j].median2,
    ensures
        points.len() == curve.len(),
        forall|i: int|
            0 <= i < curve.len() ==> (#[trigger] points[i]).p2.den > 0 && points[i].p2.num
                == curve[i].median2 * points[i].p2.den,
{
    let xs = second_class(curve);
    let ws = row_weights(curve);
    let levels = second_levels(points);
    assert forall|x: int, y: int|
        #![trigger xs[x], xs[y]]
        0 <= x <= y < xs.len() implies xs[x] <= xs[y] by {
        assert(curve[x].median2 <= curve[y].median2);
    }
    assert forall|i: int| 0 <= i < curve.len() implies (#[trigger] points[i]).p2.den > 0
        && points[i].p2.num == curve[i].median2 * points[i].p2.den by {
        lemma_rising_level(xs, ws, levels, i);
        assert(levels[i] == points[i].p2);
    }
}

/// Likewise in first class, where every row has a median and they never fall.
pub proof fn law_rising_first_class_medians_stay(curve: Seq<DistanceRow>, points: Seq<CurvePoint>)
    requires
        is_monotone_fit(
            first_class(curve, curve.len()),
            row_weights(curve),
            first_levels(points),
        ),
        forall|i: int| 0 <= i < curve.len() ==> (#[trigger] curve[i]).median1 is Some,
        forall|i: int, j: int|
            #![trigger curve[i], curve[j]]
            0 <= i <= j < curve.len() ==> curve[i].median1->0 <= curve[j].median1->0,
    ensures
        points.len() == curve.len(),
        forall|i: int|
            0 <= i < curve.len() ==> (#[trigger] points[i]).p1.den > 0 && points[i].p1.num
                == curve[i].median1->0 * points[i].p1.den,
{
    let firsts = Seq::new(curve.len(), |i: int| curve[i].median1->0);
    lemma_first_class_written(curve, firsts, curve.len());
    assert(firsts.take(curve.len() as int) =~= firsts);
    let ws = row_weights(curve);
    let levels = first_levels(points);
    assert forall|x: int, y: int|
        #![trigger firsts[x], firsts[y]]
        0 <= x <= y < firsts.len() implies firsts[x] <= firsts[y] by {
        assert(curve[x].median1->0 <= curve[y].median1->0);
    }
    assert forall|i: int| 0 <= i < curve.len() implies (#[trigger] points[i]).p1.den > 0
        && points[i].p1.num == curve[i].median1->0 * points[i].p1.den by {
        lemma_rising_level(firsts, ws, levels, i);
        assert(levels[i] == points[i].p1);
    }
}

proof fn lemma_rising_level(xs: Seq<u64>, ws: Seq<u64>, levels: Seq<Mean>, i: int)
    requires
        is_monotone_fit(xs, ws, levels),
        0 <= i < xs.len(),
        forall|x: int, y: int|
            #![trigger xs[x], xs[y]]
            0 <= x <= y < xs.len() ==> xs[x] <= xs[y],
    ensures
        levels[i].den > 0,
        levels[i].num == xs[i] * levels[i].den,
{
    let blocks = choose|blocks: Seq<Block>|
        #[trigger] is_fit(xs, ws, blocks) && has_levels(blocks, levels);
    let k = lemma_block_around(blocks, xs.len() as int, blocks.len(), i);
    assert(lies_in(blocks, k, i));
    assert(is_block(xs, ws, blocks[k]));
    lemma_rising_block_is_flat(xs, ws, blocks[k], i);
}

/// The block that a point lies in, among the first `m` that reach beyond it.
proof fn lemma_block_around(blocks: Seq<Block>, end: int, m: nat, i: int) -> (k: int)
    requires
        covers(blocks, end),
        0 < m <= blocks.len(),
        0 <= i < blocks[m - 1].start + blocks[m - 1].len,
    ensures
        lies_in(blocks, k, i),
    decreases m,
{
    if blocks[m - 1].start <= i {
        m - 1
    } else {
        assert(blocks[m - 1].start == blocks[m - 2].start + blocks[m - 2].len);
        lemma_block_around(blocks, end, (m - 1) as nat, i)
    }
}

/// Which distances count as moved: those at which the fitted price lies more than the
/// `fineness`-th part of a unit above or below the median.
pub proof fn law_moved_means_off_the_median(
    curve: Seq<DistanceRow>,
    points: Seq<CurvePoint>,
    fineness: u32,
    k: nat,
)
    requires
        k < curve.len(),
    ensures
        moved_count(curve, points, fineness, 0) == 0,
        moved_count(curve, points, fineness, k + 1) == moved_count(curve, points, fineness, k) + (
        if (curve[k as int].median2 * points[k as int].p2.den - points[k as int].p2.num) * fineness
            > points[k as int].p2.den || (points[k as int].p2.num - curve[k as int].median2
            * points[k as int].p2.den) * fineness > points[k as int].p2.den {
            1int
        } else {
            0
        }),
{
    let gap = curve[k as int].median2 * points[k as int].p2.den - points[k as int].p2.num;
    assert(-gap == points[k as int].p2.num - curve[k as int].median2 * points[k as int].p2.den);
}

} // verus!
