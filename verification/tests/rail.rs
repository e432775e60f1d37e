//! The national rail graph and the routes over it.

use isodapane_build::national::build_graph;
use isodapane_build::rail::{
    clock_parts, collapse_rail_stops, component_sizes, is_rail, is_swiss, keep_served,
    rail_graph, renumber_runs, Clock, IdSet, NatGraph, NatStation, PendingStop, RailEdge,
    RailStream, Run,
};
use isodapane_build::routes::EdgeGraph;

/// The seconds a clock shows, each part read as a number.
fn seconds(s: &str) -> Option<f64> {
    let parts = clock_parts(s)?;
    let h: f64 = parts.hours.parse().ok()?;
    let m: f64 = parts.minutes.parse().ok()?;
    let sec: f64 = parts.seconds.map_or(0.0, |t| t.parse().unwrap_or(0.0));
    Some(h * 3600.0 + m * 60.0 + sec)
}

fn clock(s: &str) -> Clock {
    match seconds(s) {
        None => Clock::Blank,
        Some(t) if !t.is_finite() => Clock::Never,
        Some(t) => Clock::At((t * 1000.0).round() as i64),
    }
}

#[test]
fn clocks_are_split_at_their_colons() {
    let parts = |s: &str| clock_parts(s).map(|p| (p.hours, p.minutes, p.seconds));
    let part = |s: &str| s.to_string();
    assert_eq!(parts("08:30:15"), Some((part("08"), part("30"), Some(part("15")))));
    assert_eq!(parts(" 1:2\n"), Some((part("1"), part("2"), None)));
    assert_eq!(parts("1:2:3:4"), Some((part("1"), part("2"), Some(part("3")))));
    assert_eq!(parts("::"), Some((part(""), part(""), Some(part("")))));
    assert_eq!(parts("1"), None);
    assert_eq!(parts(""), None);
}

#[test]
fn clocks_are_read() {
    assert_eq!(seconds("08:30:15"), Some(30615.0));
    assert_eq!(seconds(" 25:00:00 "), Some(90000.0));
    assert_eq!(seconds("1:2"), Some(3720.0));
    assert_eq!(seconds("1:2:x"), Some(3720.0));
    assert_eq!(seconds("8.5:-30:1e1"), Some(28810.0));
    assert_eq!(seconds("-1:00:00"), Some(-3600.0));
    assert_eq!(seconds("5000000000:0:0.1234567"), Some(1.8e13 + 0.1234567));
    assert_eq!(seconds("1"), None);
    assert_eq!(seconds(""), None);
    assert_eq!(seconds("x:00:00"), None);
}

#[test]
fn rail_route_types_are_known() {
    assert!(is_rail("2") && is_rail("100") && is_rail(" 117 ") && is_rail("106"));
    assert!(!is_rail("118") && !is_rail("99") && !is_rail("3") && !is_rail("") && !is_rail("-2"));
}

#[test]
fn swiss_numbers_begin_with_85() {
    assert!(is_swiss("8503000") && is_swiss("\"8507000\"") && is_swiss("85"));
    assert!(!is_swiss("8014090") && !is_swiss("8") && !is_swiss(""));
}

#[test]
fn trips_of_rail_routes_are_noted() {
    let mut routes = IdSet::new();
    routes.note_route("r1", "106");
    routes.note_route("r2", "700");
    assert!(routes.contains("r1") && !routes.contains("r2"));
    let mut trips = IdSet::new();
    trips.note_trip(&routes, "r1", "t1");
    trips.note_trip(&routes, "r2", "t2");
    assert!(trips.contains("t1") && !trips.contains("t2"));
}

fn pending(id: &str, parent: &str) -> PendingStop<i32> {
    PendingStop {
        id: id.to_string(),
        parent: parent.to_string(),
        name: format!("name of {id}"),
        lon: 1,
        lat: 2,
        uic: format!("85{id}"),
    }
}

#[test]
fn platforms_collapse_onto_stations() {
    let (stations, index) = collapse_rail_stops(&vec![
        pending("1a", "1"),
        pending("1", ""),
        pending("2a", "2"),
        pending("3", ""),
    ]);
    let ids: Vec<&str> = stations.iter().map(|s| s.id.as_str()).collect();
    assert_eq!(ids, vec!["1", "3", "2a"]);
    assert_eq!(index.get("1a"), Some(0));
    assert_eq!(index.get("2a"), Some(2));
    assert_eq!(index.get("2"), None);
    assert_eq!(stations[2].uic, "852a");
}

fn streamed() -> Vec<Run> {
    let (_, index) = collapse_rail_stops(&vec![pending("a", ""), pending("b", ""), pending("c", "")]);
    let mut routes = IdSet::new();
    routes.note_route("r", "2");
    let mut trips = IdSet::new();
    for t in ["slow", "fast", "odd"] {
        trips.note_trip(&routes, "r", t);
    }
    let mut s = RailStream::new();
    s.row("slow", "a", "1", clock("08:00:00"), clock("08:00:30"), &index, &trips);
    s.row("slow", "b", "2", clock("08:10:30"), clock("08:11:00"), &index, &trips);
    s.row("slow", "c", "3", clock("08:10:00"), clock("08:12:00"), &index, &trips);
    s.row("bus", "a", "1", clock("08:00:00"), clock("08:00:00"), &index, &trips);
    s.row("bus", "c", "2", clock("08:00:10"), clock("08:00:10"), &index, &trips);
    s.row("fast", "b", "1", clock("09:00:00"), clock(""), &index, &trips);
    s.row("fast", "a", "2", clock("09:05:00"), clock("09:05:00"), &index, &trips);
    s.row("odd", "a", "1", clock(""), clock("09:05:00"), &index, &trips);
    s.row("odd", "b", "3", clock("09:06:00"), clock(""), &index, &trips);
    s.finish()
}

#[test]
fn the_fastest_run_counts() {
    assert_eq!(
        streamed(),
        vec![
            Run { a: 0, b: 1, time: Some(300_000) },
            Run { a: 1, b: 2, time: None },
        ]
    );
}

fn rail_station(id: &str) -> NatStation<i32> {
    NatStation { id: id.to_string(), name: id.to_string(), lon: 0, lat: 0, uic: String::new() }
}

#[test]
fn stations_without_trains_are_left_out() {
    let runs = vec![Run { a: 0, b: 2, time: None }];
    let served = keep_served(&vec![rail_station("a"), rail_station("b"), rail_station("c")], &runs);
    let ids: Vec<&str> = served.stations.iter().map(|s| s.id.as_str()).collect();
    assert_eq!(ids, vec!["a", "c"]);
    assert_eq!(served.dense, vec![Some(0), None, Some(1)]);
}

#[test]
fn runs_follow_their_stations() {
    let run = |a: u32, b: u32, time: Option<u64>| Run { a, b, time };
    let stations = vec![rail_station("a"), rail_station("b"), rail_station("c"), rail_station("d")];
    let runs = vec![run(0, 2, Some(60)), run(2, 3, None)];
    let served = keep_served(&stations, &runs);
    let renumbered = renumber_runs(&served.dense, &runs);
    assert_eq!(renumbered, vec![run(0, 1, Some(60)), run(1, 2, None)]);
    for (old, new) in runs.iter().zip(&renumbered) {
        assert_eq!(served.stations[new.a as usize].id, stations[old.a as usize].id);
        assert_eq!(served.stations[new.b as usize].id, stations[old.b as usize].id);
    }
    // Stations that are not kept, or not known, take their runs with them.
    let more = vec![run(1, 2, Some(5)), run(2, 9, Some(5)), run(3, 0, Some(7))];
    assert_eq!(renumber_runs(&served.dense, &more), vec![run(2, 0, Some(7))]);
}

#[test]
fn odd_clocks_give_no_run() {
    let (_, index) = collapse_rail_stops(&vec![pending("a", ""), pending("b", "")]);
    let mut routes = IdSet::new();
    routes.note_route("r", "2");
    let mut trips = IdSet::new();
    trips.note_trip(&routes, "r", "t");
    let time = |departure: Clock, arrival: Clock| -> Option<u64> {
        let mut s = RailStream::new();
        s.row("t", "a", "1", Clock::At(0), departure, &index, &trips);
        s.row("t", "b", "2", arrival, Clock::Blank, &index, &trips);
        s.finish()[0].time
    };
    assert_eq!(time(clock("0:-1:00"), clock("0:01:00")), Some(120_000));
    assert_eq!(time(Clock::At(i64::MIN), Clock::At(i64::MAX)), Some(u64::MAX));
    assert_eq!(time(clock("x"), clock("0:01:00")), Some(60_000), "left on arrival");
    assert_eq!(time(clock("nan:0:0"), clock("0:01:00")), None);
    assert_eq!(time(clock("0:00:00"), clock("inf:0:0")), None);
    assert_eq!(time(clock("0:01:00"), clock("0:01:00")), None);
}

fn edge(u: u32, v: u32, metres: u32, seconds: u64) -> RailEdge<u32, u64> {
    RailEdge { u, v, metres, seconds }
}

#[test]
fn near_stations_are_joined_by_a_walk() {
    let near = vec![(0, 1), (1, 2)];
    let (g, walks) = rail_graph(3, &vec![edge(0, 1, 900, 60)], &near, 300, 0);
    assert_eq!(walks, 1);
    assert_eq!(g.adjacency, vec![vec![1], vec![0, 2], vec![1]]);
    assert_eq!(g.metres, vec![vec![900], vec![900, 0], vec![0]]);
    assert_eq!(g.seconds, vec![vec![60], vec![60, 300], vec![300]]);
}

#[test]
fn a_walk_is_free_and_never_doubles_a_line() {
    let trains = vec![edge(0, 1, 900, 60), edge(0, 1, 950, 50)];
    let near = vec![(1, 0), (0, 2), (2, 0), (0, 2)];
    let (g, walks) = rail_graph(3, &trains, &near, 300, 0);
    assert_eq!(walks, 1);
    assert_eq!(g.adjacency, vec![vec![1, 1, 2], vec![0, 0], vec![0]]);
    assert_eq!(g.metres, vec![vec![900, 950, 0], vec![900, 950], vec![0]]);
    let e = EdgeGraph::from(&g, 600);
    let walked = e.path(&e.secs, 1, 2).unwrap();
    assert_eq!(walked.iter().map(|&i| e.metres[i as usize]).sum::<u32>(), 950);
}

#[test]
fn parts_are_measured_largest_first() {
    let (g, _) = rail_graph::<u32, u64>(5, &vec![edge(1, 2, 0, 1), edge(2, 4, 0, 1)], &vec![], 0, 0);
    assert_eq!(component_sizes(&g.adjacency), vec![3, 1, 1]);
    assert_eq!(component_sizes(&vec![]), Vec::<usize>::new());
}

#[test]
fn a_network_knows_its_parts() {
    let near = vec![(0, 3)];
    let n = build_graph(5, &vec![edge(1, 2, 0, 1), edge(2, 4, 0, 1)], &near, 300, 0);
    assert_eq!(n.walks, 1);
    assert_eq!(n.sizes, vec![3, 2]);
    assert_eq!(n.graph.adjacency, vec![vec![3], vec![2], vec![1, 4], vec![0], vec![2]]);
}

fn diamond() -> EdgeGraph<u32, u64> {
    // 0 - 1 - 3 and 0 - 2 - 3 take equally long; 4 stands alone.
    let (g, _) = rail_graph(
        5,
        &vec![edge(2, 3, 0, 5), edge(0, 2, 0, 5), edge(0, 1, 0, 4), edge(1, 3, 0, 6)],
        &vec![],
        0,
        0,
    );
    EdgeGraph::from(&g, 600)
}

#[test]
fn ties_go_to_the_smaller_station() {
    let g = diamond();
    assert_eq!(g.secs, vec![5, 4, 6, 5]);
    let w = g.secs.clone();
    // Edges are numbered row by row: 0-2, 0-1, 1-3, 2-3.
    assert_eq!(g.path(&w, 0, 3), Some(vec![1, 2]));
    assert_eq!(g.path(&w, 0, 4), None);
    assert_eq!(g.path(&w, 2, 2), Some(vec![]));
}

#[test]
fn a_route_on_the_way_is_the_beginning_of_the_route() {
    let g = diamond();
    let w = vec![5, 40, 6, 5];
    let whole = g.path(&w, 0, 3).unwrap();
    assert_eq!(whole, vec![0, 3]);
    assert_eq!(g.path(&w, 0, 2), Some(vec![0]));
}

#[test]
fn a_missing_run_time_is_filled_in() {
    let g = NatGraph {
        adjacency: vec![vec![1], vec![0]],
        metres: vec![vec![7], vec![7]],
        seconds: Vec::<Vec<u64>>::new(),
    };
    let e = EdgeGraph::from(&g, 600);
    assert_eq!(e.secs, vec![600]);
    assert_eq!(e.metres, vec![7]);
    assert_eq!(e.adj, vec![vec![(1, 0)], vec![(0, 0)]]);
}
