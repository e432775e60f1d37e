//! The station graph, its components, its stored form and shortcut edges.

use isodapane_build::graph::{drop_shortcut_edges, Graph, GraphJson};
use isodapane_build::zoneset::ZoneIndex;

#[test]
fn edges_are_undirected_and_deduplicated() {
    let g = Graph::from_edges(vec![0, 0, 0], &[(0, 1, 0), (1, 0, 0), (0, 1, 0), (1, 2, 0)]);
    assert_eq!(g.edge_count(), 2);
    assert_eq!(g.neighbours(1).len(), 2);
    assert!(g.neighbours(0).contains(&1));
    assert!(g.neighbours(1).contains(&0));
}

#[test]
fn self_loops_are_dropped() {
    let g = Graph::from_edges(vec![0, 0], &[(0, 0, 0), (0, 1, 0)]);
    assert_eq!(g.edge_count(), 1);
}

fn chord_metres(a: (f64, f64), b: (f64, f64)) -> f64 {
    let mid_lat = ((a.1 + b.1) / 2.0).to_radians();
    let dx = (b.0 - a.0).to_radians() * 6_371_000.0 * mid_lat.cos();
    let dy = (b.1 - a.1).to_radians() * 6_371_000.0;
    (dx * dx + dy * dy).sqrt()
}

#[test]
fn shortcut_edges_are_dropped_but_load_bearing_ones_survive() {
    // Four stops in a line, 1 km apart, plus an express 0 -> 3.
    let coords = vec![
        (8.0, 47.0),
        (8.0, 47.009),
        (8.0, 47.018),
        (8.0, 47.027),
        // An isolated stop reachable only by one long edge.
        (8.5, 47.5),
    ];
    let edges = vec![
        (0, 1, 0u64),
        (1, 2, 0),
        (2, 3, 0),
        (0, 3, 0), // express, paralleled by the locals
        (3, 4, 0), // long, but the only way to reach node 4
    ];
    let lens: Vec<u64> = edges
        .iter()
        .map(|&(u, v, _)| {
            (chord_metres(coords[u as usize], coords[v as usize]) * 1000.0).round() as u64
        })
        .collect();
    let (kept, dropped) = drop_shortcut_edges(coords.len(), &lens, &edges, 16, 10, 12);
    assert_eq!(dropped, 1, "only the express should go");
    assert!(kept.contains(&(3, 4, 0)), "load-bearing long edge must survive");
    assert!(!kept.contains(&(0, 3, 0)), "express must be dropped");
}

#[test]
fn components_are_found_largest_first() {
    // {0,1,2} and {3,4}
    let g = Graph::from_edges(vec![0; 5], &[(0, 1, 0), (1, 2, 0), (3, 4, 0)]);
    let comps = g.components();
    assert_eq!(comps.len(), 2);
    assert_eq!(comps[0].len(), 3);
    assert_eq!(comps[1].len(), 2);
}

#[test]
fn isolated_nodes_are_their_own_component() {
    let g = Graph::from_edges(vec![0; 3], &[(0, 1, 0)]);
    assert_eq!(g.components().len(), 2);
}

#[test]
fn components_list_a_depth_first_walk() {
    // A star: the walk leaves over the last neighbour first.
    let g = Graph::from_edges(vec![0; 6], &[(4, 5, 0), (0, 1, 0), (0, 2, 0), (0, 3, 0)]);
    assert_eq!(g.components(), vec![vec![0, 3, 2, 1], vec![4, 5]]);
}

#[test]
fn components_tell_which_nodes_are_connected() {
    let g = Graph::from_edges(vec![0; 4], &[(2, 3, 0)]);
    let comps = g.components();
    assert_eq!(comps, vec![vec![2, 3], vec![0], vec![1]]);
}

#[test]
fn parallel_edges_union_their_zones() {
    let g = Graph::from_edges(vec![0, 1], &[(0, 1, 1 << 5), (1, 0, 1 << 6)]);
    assert_eq!(g.edges_from(0), vec![(1, 0b110_0011)]);
    assert_eq!(g.edges_from(1), vec![(0, 0b110_0011)]);
    assert_eq!(g.zone_of(1), 1);
    assert_eq!(g.node_count(), 2);
}

#[test]
fn express_with_a_long_detour_stays() {
    // The local way is twice as long, so the express is no shortcut.
    let edges = [(0, 1, 7u64), (1, 2, 7), (0, 2, 7)];
    let (kept, dropped) = drop_shortcut_edges(3, &[99, 99, 100], &edges, 16, 10, 12);
    assert_eq!((kept.len(), dropped), (3, 0));
    let (kept, dropped) = drop_shortcut_edges(3, &[80, 80, 100], &edges, 16, 10, 12);
    assert_eq!(kept, vec![(0, 1, 7), (1, 2, 7)]);
    assert_eq!(dropped, 1);
}

#[test]
fn too_many_hops_are_no_parallel() {
    let edges = [(0, 1, 0u64), (1, 2, 0), (2, 3, 0), (0, 3, 0)];
    let lens = [10, 10, 10, 30];
    assert_eq!(drop_shortcut_edges(4, &lens, &edges, 16, 10, 2).1, 0);
    assert_eq!(drop_shortcut_edges(4, &lens, &edges, 16, 10, 3).1, 1);
}

#[test]
fn a_path_of_few_hops_counts_beside_a_shorter_one_of_many() {
    // 0-1-2-3-4 is shorter than 0-5-4 but takes too many hops.
    let edges = [
        (0, 1, 0u64),
        (1, 2, 0),
        (2, 3, 0),
        (3, 4, 0),
        (0, 5, 0),
        (5, 4, 0),
        (0, 4, 0),
    ];
    let lens = [10, 10, 10, 10, 30, 30, 50];
    let (kept, dropped) = drop_shortcut_edges(6, &lens, &edges, 16, 10, 2);
    assert_eq!(dropped, 1);
    assert!(!kept.contains(&(0, 4, 0)));
}

#[test]
fn dropping_strands_nothing_and_spares_the_shortest() {
    let edges = [(0, 1, 0u64), (1, 2, 0), (0, 2, 0), (2, 3, 0), (0, 3, 0)];
    let lens = [10, 10, 15, 10, 25];
    let (kept, _) = drop_shortcut_edges(4, &lens, &edges, 16, 10, 12);
    assert!(kept.contains(&(0, 1, 0)));
    let g = Graph::from_edges(vec![0; 4], &kept);
    assert_eq!(g.components().len(), 1);
}

#[test]
fn graph_survives_its_stored_form() {
    let zones = ZoneIndex::new((100..150).collect()).unwrap();
    let g = Graph::from_edges(
        vec![0, 40, 7],
        &[(2, 0, 1 << 45), (0, 1, 0), (1, 2, (1 << 33) | 2)],
    );
    let json = GraphJson::from_graph(&g, &zones);
    assert_eq!(json.adjacency[0], vec![2, 1]);
    assert_eq!(json.edge_mask_hi[0][0], 1 << 13);
    assert_eq!(json.edge_mask_lo[0][0], (1 << 7) | 1);
    assert_eq!(json.zone_bits, vec![0, 40, 7]);
    assert_eq!(json.zone_numbers[10], 110);
    assert_eq!(json.zone_weights[10], 2);
    assert_eq!(json.zone_weights[11], 1);
    assert!(json.is_loadable());
    let back = json.to_graph();
    assert_eq!(back.node_count(), 3);
    assert_eq!(back.edge_count(), 3);
    for u in 0..3 {
        let mut a = g.edges_from(u);
        let mut b = back.edges_from(u);
        a.sort_unstable();
        b.sort_unstable();
        assert_eq!(a, b);
    }
}

#[test]
fn a_stored_graph_without_masks_is_not_loadable() {
    let json = GraphJson {
        adjacency: vec![vec![1], vec![0]],
        edge_mask_lo: vec![vec![], vec![]],
        edge_mask_hi: vec![vec![0], vec![0]],
        zone_bits: vec![0, 0],
        zone_numbers: vec![100],
        zone_weights: vec![1],
    };
    assert!(!json.is_loadable());
    let json = GraphJson { edge_mask_lo: vec![vec![0], vec![0]], ..json };
    assert!(json.is_loadable());
    let json = GraphJson { zone_bits: vec![0], ..json };
    assert!(!json.is_loadable());
}
