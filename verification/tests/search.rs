//! The multi-label search.

use isodapane_build::graph::Graph;
use isodapane_build::search::{search, search_capped, LabelMean, LABEL_CAP};
use isodapane_build::zoneset::ZoneIndex;

/// Build a test graph. Edges carry no extra traversed zones, so each edge
/// covers exactly its two endpoints' zones.
fn build(zone_numbers: &[u32], edges: &[(u32, u32)]) -> (Graph, ZoneIndex) {
    let mut uniq: Vec<u32> = zone_numbers.to_vec();
    uniq.sort_unstable();
    uniq.dedup();
    let zi = ZoneIndex::new(uniq).unwrap();
    let node_zones: Vec<u8> = zone_numbers.iter().map(|n| zi.index_of(*n).unwrap()).collect();
    let edges: Vec<(u32, u32, u64)> = edges.iter().map(|&(a, b)| (a, b, 0)).collect();
    (Graph::from_edges(node_zones, &edges), zi)
}

#[test]
fn single_zone_trip_costs_one() {
    let (g, zi) = build(&[154, 154], &[(0, 1)]);
    let r = search(&g, &zi, 0);
    assert_eq!(r.weights[1], Some(1));
}

#[test]
fn zurich_city_bills_as_two_zones() {
    // Both stations inside zone 110.
    let (g, zi) = build(&[110, 110], &[(0, 1)]);
    let r = search(&g, &zi, 0);
    assert_eq!(r.weights[1], Some(2), "zone 110 must count double");
}

#[test]
fn revisiting_a_zone_is_free() {
    // 154 -> 155 -> 154: the set is {154,155}, weight 2, not 3.
    let (g, zi) = build(&[154, 155, 154], &[(0, 1), (1, 2)]);
    let r = search(&g, &zi, 0);
    assert_eq!(r.weights[2], Some(2));
}

#[test]
fn unreachable_nodes_have_no_weight() {
    let (g, zi) = build(&[154, 155], &[]);
    let r = search(&g, &zi, 0);
    assert_eq!(r.weights[1], None);
}

fn junction() -> (Graph, ZoneIndex) {
    //            1(B) - 2(C)
    //          /             \
    //  0(A)                    3(A) - 4(B) - 5(C)
    //          \             /
    //            6(D) ------
    build(
        &[100, 101, 102, 100, 101, 102, 103],
        &[(0, 1), (1, 2), (2, 3), (0, 6), (6, 3), (3, 4), (4, 5)],
    )
}

/// The case that breaks plain Dijkstra.
///
/// Node 0 in A. Two routes to node 3: one through B,C, one through D.
/// Then 3 -> 4 -> 5 passes through B and C. The path that looked worse at
/// node 3 (already holding B and C) wins at node 5.
#[test]
fn locally_worse_label_can_win_globally() {
    let (g, zi) = junction();
    let r = search(&g, &zi, 0);
    // Via B,C: set {A,B,C} = 3. Via D: {A,D} then +B +C = {A,D,B,C} = 4.
    assert_eq!(
        r.weights[5],
        Some(3),
        "must keep the locally-worse label that extends better"
    );
    // And node 3 really does hold both labels on its frontier.
    assert!(
        r.label_counts[3] >= 2,
        "expected a Pareto frontier at the junction, got {}",
        r.label_counts[3]
    );
}

/// An edge that crosses a zone without stopping in it must still be billed.
#[test]
fn traversed_zones_are_charged() {
    let zi = ZoneIndex::new(vec![100, 101, 102]).unwrap();
    let (a, mid, b) = (
        zi.index_of(100).unwrap(),
        zi.index_of(101).unwrap(),
        zi.index_of(102).unwrap(),
    );
    // One non-stop edge from a zone-100 stop to a zone-102 stop that
    // physically crosses zone 101 — the Zürich HB -> Winterthur case.
    let g = Graph::from_edges(vec![a, b], &[(0, 1, 1u64 << mid)]);
    let r = search(&g, &zi, 0);
    assert_eq!(r.weights[1], Some(3), "the crossed zone must be paid for");
}

#[test]
fn cycles_terminate() {
    let (g, zi) = build(&[100, 101, 102], &[(0, 1), (1, 2), (2, 0)]);
    let r = search(&g, &zi, 0);
    assert_eq!(r.weights[1], Some(2));
    assert_eq!(r.weights[2], Some(2));
    assert_eq!(r.cap_hits, 0);
}

#[test]
fn a_tight_cap_overcharges_but_never_undercharges() {
    let (g, zi) = junction();
    let exact = search_capped(&g, &zi, 0, usize::MAX);
    let capped = search_capped(&g, &zi, 0, 1);
    assert_eq!(exact.cap_hits, 0);
    assert!(capped.cap_hits > 0);
    assert_eq!(exact.weights[5], Some(3));
    assert_eq!(capped.weights[5], Some(4));
    for v in 0..7 {
        assert!(exact.weights[v] <= capped.weights[v]);
    }
}

#[test]
fn runs_are_reproducible() {
    let (g, zi) = junction();
    let a = search(&g, &zi, 2);
    let b = search_capped(&g, &zi, 2, LABEL_CAP);
    assert_eq!(a.weights, b.weights);
    assert_eq!(a.best_sets, b.best_sets);
    assert_eq!(a.label_counts, b.label_counts);
    assert_eq!(a.cap_hits, b.cap_hits);
}

#[test]
fn fares_are_symmetric() {
    let (g, zi) = junction();
    for a in 0..7u32 {
        for b in 0..7u32 {
            let there = search(&g, &zi, a).weights[b as usize];
            let back = search(&g, &zi, b).weights[a as usize];
            assert_eq!(there, back);
        }
    }
}

#[test]
fn a_leg_never_costs_more_than_the_whole() {
    let (g, zi) = build(&[100, 101, 102, 103], &[(0, 1), (1, 2), (2, 3)]);
    let r = search(&g, &zi, 0);
    assert_eq!(r.weights, vec![Some(1), Some(2), Some(3), Some(4)]);
    let leg = search(&g, &zi, 1);
    assert!(leg.weights[2] <= r.weights[3]);
}

#[test]
fn label_statistics_are_exact() {
    let (g, zi) = junction();
    let r = search(&g, &zi, 0);
    assert_eq!(r.max_labels(), *r.label_counts.iter().max().unwrap());
    let labels: usize = r.label_counts.iter().sum();
    assert_eq!(r.mean_labels(), LabelMean { labels: labels as u128, stations: 7 });
    let (g, zi) = build(&[154, 155], &[]);
    let r = search(&g, &zi, 0);
    assert_eq!(r.mean_labels(), LabelMean { labels: 1, stations: 1 });
    assert_eq!(r.max_labels(), 1);
}

#[test]
fn the_best_set_is_the_one_paid_for() {
    let (g, zi) = junction();
    let r = search(&g, &zi, 0);
    let set = r.best_sets[5].unwrap();
    assert_eq!(set.iter(), vec![0, 1, 2]);
    assert_eq!(Some(zi.weight(set)), r.weights[5]);
}

#[test]
fn a_search_without_dropped_labels_is_exact() {
    let (g, zi) = junction();
    let whole = search_capped(&g, &zi, 0, usize::MAX);
    assert_eq!(whole.cap_hits, 0);
    for cap in 1..6 {
        let r = search_capped(&g, &zi, 0, cap);
        if r.cap_hits == 0 {
            assert_eq!(r.weights, whole.weights);
            assert_eq!(r.label_counts, whole.label_counts);
        }
    }
    assert!(search_capped(&g, &zi, 0, 1).cap_hits > 0);
    assert_eq!(search_capped(&g, &zi, 0, 5).cap_hits, 0);
}

#[test]
fn uncapped_fares_are_symmetric() {
    let (g, zi) = junction();
    for a in 0..7u32 {
        for b in 0..7u32 {
            let there = search_capped(&g, &zi, a, usize::MAX).weights[b as usize];
            let back = search_capped(&g, &zi, b, usize::MAX).weights[a as usize];
            assert_eq!(there, back);
        }
    }
}

#[test]
fn a_plain_search_keeps_64_labels() {
    assert_eq!(LABEL_CAP, 64);
    let (g, zi) = junction();
    let plain = search(&g, &zi, 0);
    let capped = search_capped(&g, &zi, 0, 64);
    assert_eq!(plain.weights, capped.weights);
    assert_eq!(plain.label_counts, capped.label_counts);
    assert_eq!(plain.cap_hits, capped.cap_hits);
    assert!(plain.label_counts.iter().all(|&n| n <= 64));
}
