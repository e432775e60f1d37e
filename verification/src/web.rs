//! The flat tables the national page loads.

use crate::calibrate::ExactPrice;
use crate::curve::{CurvePoint, Mean};
use crate::routes::{steps_exist, EdgeGraph};
use crate::seqs::nested;
use vstd::prelude::*;

verus! {

/// The neighbours of each of the first `n` stations, in the order of its edges.
pub fn neighbour_rows<M, S>(graph: &EdgeGraph<M, S>, n: usize) -> (r: Vec<Vec<u32>>)
    requires
        n <= graph.adj@.len(),
    ensures
        r@.len() == n,
        forall|u: int|
            0 <= u < n ==> (#[trigger] r@[u])@ == Seq::new(
                graph.steps()[u].len(),
                |k: int| graph.steps()[u][k].0,
            ),
{
    let mut out: Vec<Vec<u32>> = Vec::new();
    let mut u: usize = 0;
    while u < n
        invariant
            n <= graph.adj@.len(),
            u <= n,
            out@.len() == u,
            forall|v: int|
                0 <= v < u ==> (#[trigger] out@[v])@ == Seq::new(
                    graph.steps()[v].len(),
                    |k: int| graph.steps()[v][k].0,
                ),
        decreases n - u,
    {
        let steps = &graph.adj[u];
        let mut row: Vec<u32> = Vec::new();
        let mut k: usize = 0;
        while k < steps.len()
            invariant
                k <= steps@.len(),
                row@.len() == k,
                forall|j: int| 0 <= j < k ==> #[trigger] row@[j] == steps@[j].0,
            decreases steps@.len() - k,
        {
            row.push(steps[k].0);
            k = k + 1;
        }
        assert(graph.steps()[u as int] == steps@);
        assert(row@ =~= Seq::new(steps@.len(), |k: int| steps@[k].0));
        out.push(row);
        u = u + 1;
    }
    out
}

/// A value per edge, laid out along the neighbours of each of the first `n`
/// stations.
pub fn edge_rows<M, S, T: Copy>(graph: &EdgeGraph<M, S>, n: usize, values: &[T]) -> (r: Vec<
    Vec<T>,
>)
    requires
        n <= graph.adj@.len(),
        steps_exist(graph.steps(), values@.len()),
    ensures
        r@.len() == n,
        forall|u: int|
            0 <= u < n ==> (#[trigger] r@[u])@ == Seq::new(
                graph.steps()[u].len(),
                |k: int| values@[graph.steps()[u][k].1 as int],
            ),
{
    let mut out: Vec<Vec<T>> = Vec::new();
    let mut u: usize = 0;
    while u < n
        invariant
            n <= graph.adj@.len(),
            steps_exist(graph.steps(), values@.len()),
            u <= n,
            out@.len() == u,
            forall|v: int|
                0 <= v < u ==> (#[trigger] out@[v])@ == Seq::new(
                    graph.steps()[v].len(),
                    |k: int| values@[graph.steps()[v][k].1 as int],
                ),
        decreases n - u,
    {
        let steps = &graph.adj[u];
        assert(nested(graph.adj@)[u as int] == steps@);
        let mut row: Vec<T> = Vec::new();
        let mut k: usize = 0;
        while k < steps.len()
            invariant
                steps_exist(graph.steps(), values@.len()),
                u < graph.steps().len(),
                graph.steps()[u as int] == steps@,
                k <= steps@.len(),
                row@.len() == k,
                forall|j: int|
                    0 <= j < k ==> #[trigger] row@[j] == values@[steps@[j].1 as int],
            decreases steps@.len() - k,
        {
            assert(graph.steps()[u as int][k as int].1 < values@.len());
            row.push(values[steps[k].1 as usize]);
            k = k + 1;
        }
        assert(row@ =~= Seq::new(steps@.len(), |k: int| values@[steps@[k].1 as int]));
        out.push(row);
        u = u + 1;
    }
    out
}

/// The exact tier, one column per field. A price that is not published is -1.
#[derive(Debug)]
pub struct ExactColumns {
    pub a: Vec<u32>,
    pub b: Vec<u32>,
    pub p2: Vec<u64>,
    pub p1: Vec<i128>,
    pub ph: Vec<i128>,
    pub km: Vec<u32>,
}

/// A price as it stands in a column.
pub open spec fn column_price(price: Option<u64>) -> i128 {
    match price {
        Some(p) => p as i128,
        None => (-1) as i128,
    }
}

fn price_or_gap(price: Option<u64>) -> (r: i128)
    ensures
        r == column_price(price),
{
    match price {
        Some(p) => p as i128,
        None => -1,
    }
}

/// Lays the exact tier out by column.
pub fn exact_columns(exact: &Vec<ExactPrice>) -> (r: ExactColumns)
    ensures
        r.a@ == Seq::new(exact@.len(), |i: int| exact@[i].a),
        r.b@ == Seq::new(exact@.len(), |i: int| exact@[i].b),
        r.p2@ == Seq::new(exact@.len(), |i: int| exact@[i].adult2),
        r.p1@ == Seq::new(exact@.len(), |i: int| column_price(exact@[i].adult1)),
        r.ph@ == Seq::new(exact@.len(), |i: int| column_price(exact@[i].half2)),
        r.km@ == Seq::new(exact@.len(), |i: int| exact@[i].km),
        forall|i: int|
            0 <= i < exact@.len() ==> #[trigger] r.p1@[i] == match exact@[i].adult1 {
                Some(p) => p as int,
                None => -1,
            },
        forall|i: int|
            0 <= i < exact@.len() ==> #[trigger] r.ph@[i] == match exact@[i].half2 {
                Some(p) => p as int,
                None => -1,
            },
{
    let mut a: Vec<u32> = Vec::new();
    let mut b: Vec<u32> = Vec::new();
    let mut p2: Vec<u64> = Vec::new();
    let mut p1: Vec<i128> = Vec::new();
    let mut ph: Vec<i128> = Vec::new();
    let mut km: Vec<u32> = Vec::new();
    let mut i: usize = 0;
    while i < exact.len()
        invariant
            i <= exact@.len(),
            a@ == Seq::new(i as nat, |i: int| exact@[i].a),
            b@ == Seq::new(i as nat, |i: int| exact@[i].b),
            p2@ == Seq::new(i as nat, |i: int| exact@[i].adult2),
            p1@ == Seq::new(i as nat, |i: int| column_price(exact@[i].adult1)),
            ph@ == Seq::new(i as nat, |i: int| column_price(exact@[i].half2)),
            km@ == Seq::new(i as nat, |i: int| exact@[i].km),
        decreases exact@.len() - i,
    {
        let row = exact[i];
        a.push(row.a);
        b.push(row.b);
        p2.push(row.adult2);
        p1.push(price_or_gap(row.adult1));
        ph.push(price_or_gap(row.half2));
        km.push(row.km);
        i = i + 1;
    }
    ExactColumns { a, b, p2, p1, ph, km }
}

/// A price curve, one column per field.
#[derive(Debug)]
pub struct CurveColumns {
    pub km: Vec<u32>,
    pub p2: Vec<Mean>,
    pub p1: Vec<Mean>,
}

/// Lays a price curve out by column.
pub fn curve_columns(curve: &Vec<CurvePoint>) -> (r: CurveColumns)
    ensures
        r.km@ == Seq::new(curve@.len(), |i: int| curve@[i].km),
        r.p2@ == Seq::new(curve@.len(), |i: int| curve@[i].p2),
        r.p1@ == Seq::new(curve@.len(), |i: int| curve@[i].p1),
{
    let mut km: Vec<u32> = Vec::new();
    let mut p2: Vec<Mean> = Vec::new();
    let mut p1: Vec<Mean> = Vec::new();
    let mut i: usize = 0;
    while i < curve.len()
        invariant
            i <= curve@.len(),
            km@ == Seq::new(i as nat, |i: int| curve@[i].km),
            p2@ == Seq::new(i as nat, |i: int| curve@[i].p2),
            p1@ == Seq::new(i as nat, |i: int| curve@[i].p1),
        decreases curve@.len() - i,
    {
        let point = curve[i];
        km.push(point.km);
        p2.push(point.p2);
        p1.push(point.p1);
        i = i + 1;
    }
    CurveColumns { km, p2, p1 }
}

/// A missing price shows as -1 in a column, any other as itself, so that no price is
/// mistaken for a missing one or for another.
pub proof fn law_only_missing_prices_show_as_minus_one(a: Option<u64>, b: Option<u64>)
    ensures
        column_price(a) == -1 <==> a is None,
        a is Some ==> column_price(a) == a->0,
        column_price(a) == column_price(b) <==> a == b,
{
}

} // verus!
