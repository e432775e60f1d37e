//! Stops, stations, trips and the steps from a feed to a graph.

use isodapane_build::graph::Graph;
use isodapane_build::pipeline::{
    keep_stations, node_zone_bits, renumber_pairs, report_connectivity, Connectivity, MissingZone,
    NoStops,
};
use isodapane_build::stations::{
    collapse_stops, traversed_zones, EdgeStream, FeedStop, RawStop, Station, StopIndex,
};
use isodapane_build::zoneset::ZoneIndex;

fn stop(id: &str, parent: Option<&str>, place: Option<(i32, i32)>) -> FeedStop<i32> {
    FeedStop {
        id: id.to_string(),
        name: Some(format!("name of {id}")),
        place,
        parent: parent.map(|p| p.to_string()),
    }
}

fn feed() -> Vec<FeedStop<i32>> {
    vec![
        stop("b:1", Some("b"), Some((20, 21))),
        stop("b", None, Some((2, 3))),
        stop("a", None, Some((0, 1))),
        stop("x:1", Some("x"), Some((8, 9))),
        stop("nowhere", None, None),
        stop("y:1", Some("y"), None),
    ]
}

#[test]
fn children_collapse_onto_parents() {
    let c = collapse_stops(&feed());
    let ids: Vec<&str> = c.stations.iter().map(|s| s.id.as_str()).collect();
    assert_eq!(ids, vec!["a", "b", "x:1"]);
    assert_eq!(c.index.get("b:1"), Some(1));
    assert_eq!(c.index.get("b"), Some(1));
    assert_eq!(c.index.get("x:1"), Some(2));
    assert_eq!(c.index.get("nowhere"), None);
    assert_eq!(c.index.get("y:1"), None);
    assert_eq!(c.orphans, 1);
    assert_eq!((c.stations[1].lon, c.stations[1].lat), (2, 3));
    assert_eq!(c.stations[2].name, "name of x:1");
}

#[test]
fn the_order_of_the_feed_does_not_matter() {
    let mut other = feed();
    other.reverse();
    let (a, b) = (collapse_stops(&feed()), collapse_stops(&other));
    assert_eq!(a.stations.len(), b.stations.len());
    for i in 0..a.stations.len() {
        assert_eq!(a.stations[i].id, b.stations[i].id);
    }
    assert_eq!(a.index.get("b:1"), b.index.get("b:1"));
    assert!(a.index.get("x:1").unwrap() < a.stations.len());
}

#[test]
fn a_stop_without_a_name_has_an_empty_one() {
    let c = collapse_stops(&vec![FeedStop { name: None, ..stop("a", None, Some((0, 0))) }]);
    assert_eq!(c.stations[0].name, "");
}

fn index(ids: &[&str]) -> StopIndex {
    let mut index = StopIndex::new();
    for (i, id) in ids.iter().enumerate() {
        index.insert(id.to_string(), i);
    }
    index
}

#[test]
fn consecutive_stops_make_edges() {
    let index = index(&["a", "b", "c"]);
    let zones = vec![Some(110), Some(110), Some(121)];
    let mut s = EdgeStream::new();
    s.row("t1", "b", "1", &index, &zones);
    s.row("t1", "a", " 2 ", &index, &zones);
    s.row("t1", "c", "3", &index, &zones);
    s.row("t2", "b", "4", &index, &zones);
    s.row("t2", "b", "5", &index, &zones);
    s.row("t2", "a", "6", &index, &zones);
    assert_eq!(s.finish(), vec![(0, 1), (0, 2)]);
}

#[test]
fn a_dropped_stop_is_not_bridged() {
    let index = index(&["a", "b", "c"]);
    let zones = vec![Some(110), None, Some(121)];
    let mut s = EdgeStream::new();
    s.row("t", "a", "1", &index, &zones);
    s.row("t", "b", "2", &index, &zones);
    s.row("t", "c", "3", &index, &zones);
    s.row("u", "a", "1", &index, &zones);
    s.row("u", "c", "3", &index, &zones);
    s.row("v", "a", "1", &index, &zones);
    s.row("v", "unknown", "2", &index, &zones);
    s.row("v", "c", "3", &index, &zones);
    assert!(s.finish().is_empty());
}

#[test]
fn a_row_without_a_sequence_number_is_passed_over() {
    let index = index(&["a", "b"]);
    let zones = vec![Some(110), Some(110)];
    let mut s = EdgeStream::new();
    s.row("t", "a", "1", &index, &zones);
    s.row("t", "a", "x", &index, &zones);
    s.row("t", "b", "2", &index, &zones);
    assert_eq!(s.finish(), vec![(0, 1)]);
}

#[test]
fn columns_are_found_behind_a_byte_order_mark() {
    let headers: Vec<String> =
        vec![String::from("\u{feff}trip_id"), String::from("stop_id"), String::from("stop_id")];
    assert_eq!(isodapane_build::stations::column(&headers, "trip_id"), Some(0));
    assert_eq!(isodapane_build::stations::column(&headers, "stop_id"), Some(1));
    assert_eq!(isodapane_build::stations::column(&headers, "stop"), None);
}

#[test]
fn located_samples_make_a_mask() {
    let zones = ZoneIndex::new(vec![110, 121, 154]).unwrap();
    let mask = traversed_zones(&vec![Some(110), None, Some(154), Some(154), Some(999)], &zones);
    assert_eq!(mask, 0b101);
    assert_eq!(traversed_zones(&vec![], &zones), 0);
}

fn raw(ids: &[&str]) -> Vec<RawStop<i32>> {
    ids.iter()
        .map(|id| RawStop { id: id.to_string(), name: id.to_uppercase(), lon: 1, lat: 2 })
        .collect()
}

#[test]
fn stations_outside_every_zone_are_left_out() {
    let kept = keep_stations(&raw(&["a", "b", "c"]), &vec![Some(121), None, Some(110)]).unwrap();
    assert_eq!(kept.dense, vec![Some(0), None, Some(1)]);
    assert_eq!(kept.stations.len(), 2);
    assert_eq!(kept.stations[1].id, "c");
    assert_eq!(kept.stations[1].name, "C");
    assert_eq!(kept.stations[1].zone_id, 110);
    assert_eq!(renumber_pairs(&kept.dense, &vec![(0, 1), (0, 2), (2, 9)]), vec![(0, 1)]);
}

#[test]
fn a_feed_without_stops_in_any_zone_is_refused() {
    assert_eq!(keep_stations(&raw(&["a"]), &vec![None]).err(), Some(NoStops));
}

fn station(name: &str, zone_id: u32) -> Station<i32> {
    Station { id: name.to_string(), name: name.to_string(), lon: 0, lat: 0, zone_id }
}

#[test]
fn zone_numbers_become_bits() {
    let zones = ZoneIndex::new(vec![110, 121]).unwrap();
    let found = node_zone_bits(&vec![station("a", 121), station("b", 110)], &zones);
    assert_eq!(found, Ok(vec![1, 0]));
    let found = node_zone_bits(&vec![station("a", 121), station("b", 999)], &zones);
    assert_eq!(found, Err(MissingZone { zone: 999 }));
}

#[test]
fn a_connected_graph_is_reported_as_such() {
    let g = Graph::from_edges(vec![0, 0], &[(0, 1, 0)]);
    let found = report_connectivity(&g, &vec![station("a", 1), station("b", 1)]);
    assert!(matches!(found, Connectivity::Connected));
}

#[test]
fn parts_of_a_graph_are_listed() {
    let names: Vec<String> = (0..20).map(|i| format!("s{i}")).collect();
    let stations: Vec<Station<i32>> = names.iter().map(|n| station(n, 1)).collect();
    let g = Graph::from_edges(vec![0; 20], &[(7, 8, 0), (8, 9, 0)]);
    match report_connectivity(&g, &stations) {
        Connectivity::Split { components, largest, stranded, listed, remaining } => {
            assert_eq!((components, largest, stranded, remaining), (18, 3, 17, 3));
            assert_eq!(listed.len(), 15);
            assert_eq!(listed[0].size, 3);
            assert_eq!(listed[0].members, vec!["s7", "s8", "s9"]);
            assert_eq!(listed[1].members, vec!["s0"]);
        }
        Connectivity::Connected => panic!("the graph is not connected"),
    }
}
