//! Fixtures, label growth and dumps.

use isodapane_build::fares::{FareTable, Prices, Tarifstufe};
use isodapane_build::graph::{Graph, GraphJson};
use isodapane_build::stations::Station;
use isodapane_build::validate::{
    check_fixture, check_fixtures, dump, dump_row, find_station, fixtures, judge, load,
    report_label_growth, run, sample_origins, Fixture, Loaded, NameError, NoPrice, RunError,
    Verdict,
};
use isodapane_build::search::{search, LabelMean};
use isodapane_build::zoneset::{TooManyZones, ZoneIndex};

fn station(name: &str) -> Station<i32> {
    Station { id: name.to_string(), name: name.to_string(), lon: 0, lat: 0, zone_id: 0 }
}

fn names(list: &[&str]) -> Vec<Station<i32>> {
    list.iter().map(|n| station(n)).collect()
}

/// Four stations in a line: 154 - 110 - 121 - 155, and one apart.
fn model() -> Loaded<i32> {
    let zones = ZoneIndex::new(vec![110, 121, 154, 155]).unwrap();
    let bits = [154, 110, 121, 155, 155].iter().map(|z| zones.index_of(*z).unwrap()).collect();
    let graph = Graph::from_edges(bits, &[(0, 1, 0), (1, 2, 0), (2, 3, 0)]);
    let json = GraphJson::from_graph(&graph, &zones);
    assert!(json.is_loadable());
    let l = load(names(&["Dietikon", "Zürich HB", "Stettbach", "Uster", "Island"]), &json).unwrap();
    assert!(l.is_searchable());
    l
}

#[test]
fn loading_undoes_writing() {
    let zones = ZoneIndex::new(vec![155, 110, 121, 154]).unwrap();
    let graph = Graph::from_edges(vec![0, 1, 3, 2], &[(3, 0, 2), (0, 1, 0), (1, 0, 8), (2, 3, 1)]);
    let l = load(names(&["a", "b", "c", "d"]), &GraphJson::from_graph(&graph, &zones)).unwrap();
    let found: Vec<&str> = l.stations.iter().map(|s| s.name.as_str()).collect();
    assert_eq!(found, vec!["a", "b", "c", "d"]);
    assert_eq!(l.zones.numbers(), zones.numbers());
    assert_eq!(l.graph.node_count(), 4);
    assert_eq!(l.graph.edge_count(), graph.edge_count());
    for u in 0..4 {
        assert_eq!(l.graph.zone_of(u), graph.zone_of(u));
        let (mut a, mut b) = (l.graph.edges_from(u), graph.edges_from(u));
        a.sort_unstable();
        b.sort_unstable();
        assert_eq!(a, b);
    }
}

fn table(stufen: u32) -> FareTable<u64> {
    FareTable {
        valid_from: String::new(),
        source: String::new(),
        stufen: (1..=stufen)
            .map(|stufe| Tarifstufe {
                stufe,
                label: String::new(),
                validity_minutes: 60,
                prices: Prices {
                    second: u64::from(stufe) * 100,
                    first: 1,
                    reduced_second: 2,
                    reduced_first: 3,
                },
            })
            .collect(),
    }
}

fn fixture(from: &'static str, to: &'static str, zones: u32, rappen: u64) -> Fixture {
    Fixture { from, to, zones, rappen, note: "" }
}

#[test]
fn fixtures_are_the_published_fares() {
    let found: Vec<(&str, &str, u32, u64)> =
        fixtures().iter().map(|f| (f.from, f.to, f.zones, f.rappen)).collect();
    assert_eq!(
        found,
        vec![
            ("Zürich HB", "Zürich Oerlikon", 2, 470),
            ("Zürich HB", "Winterthur", 6, 1360),
            ("Zürich HB", "Uster", 5, 1140),
            ("Zürich HB", "Dietikon", 3, 720),
            ("Winterthur", "Uster", 6, 1360),
            ("Wetzikon ZH", "Rapperswil SG", 4, 940),
        ]
    );
}

#[test]
fn stations_are_found_by_name_or_unique_prefix() {
    let list = names(&["Zürich HB", "Uster, Nord", "Uster", "Uster", "Zug"]);
    assert_eq!(find_station(&list, "Uster").unwrap(), 2);
    assert_eq!(find_station(&list, "Uster,").unwrap(), 1);
    assert!(matches!(find_station(&list, "Bern"), Err(NameError::Unknown)));
    match find_station(&list, "Z") {
        Err(NameError::Ambiguous(found)) => assert_eq!(found, vec!["Zürich HB", "Zug"]),
        other => panic!("{other:?}"),
    }
    let many = names(&["a1", "a2", "a3", "a4", "a5", "a6", "a7"]);
    match find_station(&many, "a") {
        Err(NameError::Ambiguous(found)) => {
            assert_eq!(found, vec!["a1", "a2", "a3", "a4", "a5", "a6"])
        }
        other => panic!("{other:?}"),
    }
}

#[test]
fn a_fixture_passes_where_zones_and_price_agree() {
    let l = model();
    let f = fixture("Dietikon", "Stettbach", 4, 400);
    match check_fixture(&l, &table(8), &f).unwrap() {
        Verdict::Priced { zones, rappen, paid, good } => {
            assert_eq!((zones, rappen, good), (4, 400, true));
            assert_eq!(paid, vec![110, 121, 154]);
        }
        other => panic!("{other:?}"),
    }
}

fn passes(f: &Fixture) -> bool {
    matches!(check_fixture(&model(), &table(8), f), Ok(Verdict::Priced { good: true, .. }))
}

#[test]
fn a_fixture_fails_where_either_differs() {
    assert!(passes(&fixture("Zürich HB", "Uster", 4, 400)));
    assert!(!passes(&fixture("Zürich HB", "Uster", 5, 400)));
    assert!(!passes(&fixture("Zürich HB", "Uster", 4, 401)));
}

#[test]
fn unknown_and_unreachable_stations_are_told_apart() {
    let l = model();
    let t = table(8);
    let found = check_fixture(&l, &t, &fixture("Dietikon", "Island", 1, 1));
    assert!(matches!(found, Ok(Verdict::Unreachable)));
    let found = check_fixture(&l, &t, &fixture("Bern", "Nowhere", 1, 1));
    assert!(matches!(found, Ok(Verdict::Skipped(NameError::Unknown))));
    let found = check_fixture(&l, &t, &fixture("Dietikon", "Nowhere", 1, 1));
    assert!(matches!(found, Ok(Verdict::Skipped(NameError::Unknown))));
}

#[test]
fn a_weight_without_a_price_ends_the_check() {
    let l = model();
    let list = vec![fixture("Dietikon", "Dietikon", 1, 100), fixture("Dietikon", "Uster", 5, 500)];
    let e = check_fixtures(&l, &table(4), &list).unwrap_err();
    assert_eq!(e, NoPrice { weight: 5 });
    let c = check_fixtures(&l, &table(5), &list).unwrap();
    assert!(c.all_good);
    assert_eq!(c.verdicts.len(), 2);
    assert!(matches!(
        run(&l, &table(4), &list, 10, 64, false),
        Err(RunError::NoPrice(NoPrice { weight: 5 }))
    ));
}

#[test]
fn a_result_is_read_at_the_destination() {
    let l = model();
    let r = search(&l.graph, &l.zones, 1);
    let v = judge(&l.zones, &table(8), &fixture("", "", 2, 200), &r, 1).unwrap();
    assert!(matches!(v, Verdict::Priced { zones: 2, rappen: 200, good: true, .. }));
}

#[test]
fn origins_are_evenly_spread() {
    assert_eq!(sample_origins(10, 3), vec![0, 3, 6, 9]);
    assert_eq!(sample_origins(5, 100), vec![0, 1, 2, 3, 4]);
    assert_eq!(sample_origins(5, 0), vec![0]);
    assert_eq!(sample_origins(0, 3), Vec::<u32>::new());
}

#[test]
fn label_growth_is_measured() {
    let l = model();
    let r = report_label_growth(&l, 5, 64);
    assert_eq!(r.origins, vec![0, 1, 2, 3, 4]);
    let g = r.growth;
    assert_eq!((g.max_labels, g.worst_origin, g.cap_hits), (1, 0, 0));
    assert_eq!(g.means[0], LabelMean { labels: 4, stations: 4 });
    assert_eq!(g.means_uncapped[4], LabelMean { labels: 1, stations: 1 });
    assert_eq!((g.differing_origins, g.differing_pairs, g.worst_overcharge), (0, 0, 0));
}

#[test]
fn a_lossy_cap_is_noticed() {
    let zones = ZoneIndex::new(vec![100, 101, 102, 103]).unwrap();
    let graph = Graph::from_edges(
        vec![0, 1, 2, 0, 1, 2, 3],
        &[(0, 1, 0), (1, 2, 0), (2, 3, 0), (0, 6, 0), (6, 3, 0), (3, 4, 0), (4, 5, 0)],
    );
    let l = Loaded { stations: names(&["a", "b", "c", "d", "e", "f", "g"]), graph, zones };
    assert!(l.is_searchable());
    let exact = report_label_growth(&l, 7, 64).growth;
    assert_eq!(exact.differing_pairs, 0);
    let g = report_label_growth(&l, 7, 1).growth;
    assert!(g.cap_hits > 0 && g.differing_origins > 0);
    assert!(g.differing_pairs >= g.differing_origins as u128);
    assert_eq!(g.worst_overcharge, 1);
    assert_eq!(g.max_labels, 1);
    assert_eq!(g.max_uncapped, exact.max_labels);
}

#[test]
fn unreachable_stations_are_dumped_as_minus_one() {
    assert_eq!(dump_row(&vec![Some(3), None, Some(0)]), vec![3, -1, 0]);
    let rows = dump(&model(), 2);
    assert_eq!(rows.len(), 3);
    assert_eq!(rows[1], (2, vec![4, 3, 1, 2, -1]));
}

#[test]
fn a_run_reports_before_it_fails() {
    let l = model();
    let good = vec![fixture("Zürich HB", "Uster", 4, 400)];
    let report = run(&l, &table(8), &good, 2, 64, true).unwrap();
    assert!(report.checked.all_good);
    assert_eq!(report.dump.unwrap().len(), 3);
    let bad = vec![fixture("Zürich HB", "Uster", 3, 400)];
    match run(&l, &table(8), &bad, 2, 64, false) {
        Err(RunError::FixturesFailed(report)) => {
            assert!(!report.checked.all_good);
            assert_eq!(report.growth.origins, vec![0, 2, 4]);
            assert!(report.dump.is_none());
        }
        other => panic!("{other:?}"),
    }
}

#[test]
fn too_many_zones_are_not_loaded() {
    let json = GraphJson {
        adjacency: vec![],
        edge_mask_lo: vec![],
        edge_mask_hi: vec![],
        zone_bits: vec![],
        zone_numbers: (0..65).collect(),
        zone_weights: vec![],
    };
    assert_eq!(load(names(&[]), &json).err(), Some(TooManyZones { count: 65 }));
}

#[test]
fn zones_without_a_number_cannot_be_searched() {
    let zones = ZoneIndex::new(vec![100, 101]).unwrap();
    let graph = Graph::from_edges(vec![0, 1], &[(0, 1, 1 << 5)]);
    assert!(!Loaded { stations: names(&[]), graph, zones: zones.clone() }.is_searchable());
    let graph = Graph::from_edges(vec![0, 2], &[]);
    assert!(!Loaded { stations: names(&[]), graph, zones: zones.clone() }.is_searchable());
    let graph = Graph::from_edges(vec![0, 1], &[]);
    assert!(!Loaded { stations: names(&["a", "b", "c"]), graph, zones }.is_searchable());
}
