//! The national tariff: fares, price curve, calibration and fare unions.

use isodapane_build::calibrate::{index_by_uic, split_samples, PairFare, Sample};
use isodapane_build::curve::{count_moved, isotonic_curve, pava, CurvePoint, Mean};
use isodapane_build::json::Json;
use isodapane_build::national::{
    build, build_fare_unions, build_web, calibrate, cheapest_fares, price_at, DistanceRow,
    ExactPrice, NatGraph, NatStation, Relation, Station, OSDM_DATASET, OSDM_URL, TVK_URL,
};
use isodapane_build::osdm::{Fare, PriceEntry, Ratio, RegionalConstraint};
use isodapane_build::routes::EdgeGraph;
use isodapane_build::unions::{partners_of, register_unions, UnionError};

fn price(id: &str, amount: Option<u64>) -> PriceEntry {
    PriceEntry { id: id.to_string(), amount }
}

fn fare(price: &str, region: &str, passenger: &str, reduction: Option<&str>, class: &str) -> Fare {
    Fare {
        price_ref: price.to_string(),
        region_ref: region.to_string(),
        class: class.to_string(),
        passenger: passenger.to_string(),
        reduction: reduction.map(|r| r.to_string()),
    }
}

fn constraint(id: &str, entry: &str, exit: &str, distance: Option<u32>) -> RegionalConstraint {
    RegionalConstraint {
        id: id.to_string(),
        entry: Some(entry.to_string()),
        exit: Some(exit.to_string()),
        distance,
        validity: vec![Some(vec![Some(String::from("1")), None, Some(String::from("2"))]), None],
    }
}

fn station(uic: &str) -> Station {
    Station { uic: uic.to_string(), name: format!("name of {uic}") }
}

#[test]
fn a_delivery_becomes_relations_and_a_curve() {
    let prices = vec![
        price("p10", Some(1000)),
        price("p20", Some(2000)),
        price("p30", Some(3000)),
        price("none", None),
        price("p20", Some(2200)),
    ];
    let half = Some("HALBTAX_CONSTRAINT");
    let fares = vec![
        fare("p20", "r1", "ADULT", None, "BASIC"),
        fare("p30", "r1", "ADULT", None, "HIGH"),
        fare("p10", "r1", "ADULT", half, "BASIC"),
        fare("p20", "r1", "ADULT", half, "HIGH"),
        fare("p10", "r1", "CHILD", None, "BASIC"),
        fare("p30", "r1", "CHILD", half, "BASIC"),
        fare("none", "r1", "ADULT", None, "BASIC"),
        fare("p10", "r2", "ADULT", None, "BASIC"),
        fare("p30", "r3", "ADULT", None, "BASIC"),
        fare("p10", "r4", "ADULT", None, "HIGH"),
        fare("p30", "r6", "ADULT", None, "BASIC"),
    ];
    let constraints = vec![
        constraint("r3", "b", "c", Some(7)),
        constraint("r1", "b", "a", Some(7)),
        constraint("r2", "a", "b", Some(3)),
        constraint("r4", "a", "c", Some(9)),
        constraint("r5", "a", "d", Some(9)),
        constraint("r6", "a", "d", None),
    ];
    let t = build(&prices, &fares, &constraints, &vec![station("b"), station("a")]);
    let pairs: Vec<(u32, &str, &str)> =
        t.relations.iter().map(|r| (r.km, r.from.as_str(), r.to.as_str())).collect();
    assert_eq!(pairs, vec![(3, "a", "b"), (7, "b", "a"), (7, "b", "c"), (9, "a", "c")]);
    let r = &t.relations[1];
    assert_eq!(r.adult2, Some(2200));
    assert_eq!(r.adult1, Some(3000));
    assert_eq!(r.half2, Some(1000));
    assert_eq!(r.half1, Some(2200));
    assert_eq!(r.child2, Some(1000));
    assert_eq!(r.route, vec!["1", "2"]);
    assert_eq!(t.stations[0].uic, "a");
    assert_eq!(t.curve.len(), 2);
    let row = t.curve[1];
    assert_eq!((row.km, row.n, row.min2, row.median2, row.max2), (7, 2, 2200, 3000, 3000));
    assert_eq!((row.min1, row.median1, row.max1), (Some(3000), Some(3000), Some(3000)));
    assert_eq!(t.curve[0].median1, None);
    assert_eq!((t.spread.total, t.spread.ambiguous, t.spread.worst), (3, 2, 800));
    assert_eq!(t.spread.shares, vec![Ratio { num: 800, den: 3000 }]);
}

fn row(km: u32, n: usize, median2: u64, median1: Option<u64>) -> DistanceRow {
    DistanceRow {
        km,
        n,
        min2: median2,
        median2,
        max2: median2,
        min1: median1,
        median1,
        max1: median1,
    }
}

#[test]
fn prices_are_looked_up_at_the_nearest_distance() {
    let curve = [row(2, 1, 300, None), row(6, 1, 700, None), row(10, 1, 900, None)];
    assert_eq!(price_at(&curve, 1), Some(300));
    assert_eq!(price_at(&curve, 4), Some(300), "the first of two equally near");
    assert_eq!(price_at(&curve, 5), Some(700));
    assert_eq!(price_at(&curve, 1000), Some(900));
    assert_eq!(price_at(&[], 1), None);
}

#[test]
fn estimates_never_fall_along_a_route() {
    let curve = vec![row(1, 1, 500, None), row(3, 1, 400, None), row(6, 1, 900, None)];
    let points = isotonic_curve(&curve);
    let graph = EdgeGraph::from(&rail(), 600);
    let route = graph.path(&graph.secs, 0, 2).unwrap();
    let tariff_km = [1u32, 4, 0];
    let mut km = 0;
    let mut last = Mean { num: 0, den: 1 };
    for edge in route {
        km += tariff_km[edge as usize];
        let nearest = points.iter().min_by_key(|p| p.km.abs_diff(km)).unwrap().p2;
        assert!(last.num * u128::from(nearest.den) <= nearest.num * u128::from(last.den));
        last = nearest;
    }
    assert_eq!((last.num, last.den), (900, 1));
}

#[test]
fn dips_are_pooled() {
    let blocks = pava(&vec![10, 30, 20, 40], &vec![1, 1, 3, 0]);
    let found: Vec<(usize, usize, u128, u64)> =
        blocks.iter().map(|b| (b.start, b.len, b.sum, b.weight)).collect();
    assert_eq!(found, vec![(0, 1, 10, 1), (1, 2, 90, 4), (3, 1, 40, 1)]);
}

#[test]
fn the_fitted_curve_never_falls() {
    let curve = vec![
        row(1, 1, 300, Some(500)),
        row(2, 1, 200, None),
        row(3, 2, 260, Some(450)),
        row(4, 1, 900, Some(1000)),
    ];
    let points = isotonic_curve(&curve);
    let second: Vec<Mean> = points.iter().map(|p| p.p2).collect();
    let pooled = Mean { num: 500, den: 2 };
    assert_eq!(second[0].num * u128::from(pooled.den), pooled.num * u128::from(second[0].den));
    for i in 1..points.len() {
        let (a, b) = (points[i - 1].p2, points[i].p2);
        assert!(a.num * u128::from(b.den) <= b.num * u128::from(a.den));
        let (a, b) = (points[i - 1].p1, points[i].p1);
        assert!(a.num * u128::from(b.den) <= b.num * u128::from(a.den));
    }
    // First class is carried forward to the second distance and pooled.
    assert_eq!(points[0].p1.num * 4, 1900 * u128::from(points[0].p1.den));
    assert_eq!(points[3].km, 4);
}

#[test]
fn rounding_is_no_move() {
    let curve = vec![row(1, 1, 300, None), row(2, 1, 300, None), row(3, 1, 300, None)];
    let at = |num: u128| CurvePoint {
        km: 1,
        p2: Mean { num, den: 1_000_000 },
        p1: Mean { num: 0, den: 1 },
    };
    let points = vec![at(300_000_010), at(299_999_990), at(299_999_989)];
    assert_eq!(count_moved(&curve, &points, 100_000), 1);
    assert_eq!(count_moved(&curve, &points, 1_000_000), 3);
    assert_eq!(count_moved(&curve, &points, 1), 0);
}

#[test]
fn the_fit_is_closer_than_another_rising_curve() {
    let (xs, ws) = (vec![10u64, 4, 6], vec![1u64, 1, 1]);
    let blocks = pava(&xs, &ws);
    assert_eq!(blocks.len(), 1);
    let level = blocks[0].sum as i128;
    let den = blocks[0].weight as i128;
    let misfit = |z: &dyn Fn(usize) -> i128, d: i128| -> i128 {
        (0..3).map(|i| (xs[i] as i128 * d - z(i)).pow(2)).sum()
    };
    let fitted = misfit(&|_| level, den);
    for a in 0..12 {
        for b in a..12 {
            for c in b..12 {
                let other = misfit(&|i| [a, b, c][i] * den, den);
                assert!(fitted <= other);
            }
        }
    }
}

fn relation(from: &str, to: &str, km: u32, adult2: Option<u64>) -> Relation {
    Relation {
        from: from.to_string(),
        to: to.to_string(),
        km,
        route: vec![],
        adult2,
        adult1: adult2.map(|p| p * 2),
        half2: None,
        half1: None,
        child2: None,
    }
}

fn rail_station(uic: &str) -> NatStation<i32> {
    NatStation { id: uic.to_string(), name: uic.to_string(), lon: 0, lat: 0, uic: uic.to_string() }
}

fn stations() -> Vec<NatStation<i32>> {
    vec![rail_station("A"), rail_station(""), rail_station("B"), rail_station("A"), rail_station("C")]
}

#[test]
fn the_first_station_of_a_number_counts() {
    let index = index_by_uic(&stations());
    assert_eq!(index.get("A"), Some(0));
    assert_eq!(index.get("B"), Some(2));
    assert_eq!(index.get(""), None);
}

fn relations() -> Vec<Relation> {
    vec![
        relation("C", "B", 30, Some(900)),
        relation("A", "B", 10, Some(500)),
        relation("B", "A", 11, Some(400)),
        relation("A", "B", 12, Some(400)),
        relation("A", "A", 1, Some(1)),
        relation("A", "Z", 1, Some(1)),
        relation("A", "C", 1, None),
    ]
}

#[test]
fn the_cheapest_fare_of_a_pair_counts() {
    let found = cheapest_fares(&relations(), &index_by_uic(&stations()));
    assert_eq!(
        found,
        vec![PairFare { a: 0, b: 2, relation: 2 }, PairFare { a: 2, b: 4, relation: 0 }]
    );
}

fn rail() -> NatGraph<u32, u64> {
    // 0 - 1 - 2, and 3 - 4 apart from them.
    NatGraph {
        adjacency: vec![vec![1], vec![0, 2], vec![1], vec![4], vec![3]],
        metres: vec![vec![1], vec![1, 2], vec![2], vec![3], vec![3]],
        seconds: vec![vec![60], vec![60, 70], vec![70], vec![80], vec![80]],
    }
}

#[test]
fn published_fares_are_served_as_published() {
    let curve = vec![row(1, 1, 300, None), row(2, 1, 200, None)];
    let c = calibrate(&stations(), &rail(), 600, &relations(), &curve, 100_000);
    let expected = ExactPrice {
        a: 0,
        b: 2,
        adult2: 400,
        adult1: Some(800),
        half2: None,
        km: 11,
    };
    assert_eq!(c.exact[0], expected);
    assert_eq!(c.exact.len(), 2);
    // The second pair has no route, the first sample is held out.
    assert_eq!((c.train.len(), c.test.len()), (0, 1));
    assert_eq!(c.test[0].path, vec![0, 1]);
    assert_eq!((c.test[0].km, c.test[0].price), (11, 400));
    assert_eq!(c.covered_edges, 0);
    assert_eq!(c.moved, 2);
}

#[test]
fn every_fifth_sample_is_held_out() {
    let samples: Vec<Sample> =
        (0..12).map(|i| Sample { path: vec![i], km: i, price: u64::from(i) }).collect();
    let (train, test) = split_samples(samples);
    assert_eq!(test.iter().map(|s| s.km).collect::<Vec<_>>(), vec![0, 5, 10]);
    assert_eq!(train.iter().map(|s| s.km).collect::<Vec<_>>(), vec![1, 2, 3, 4, 6, 7, 8, 9, 11]);
}

#[test]
fn covered_edges_are_counted_once() {
    let samples = vec![
        Sample { path: vec![0, 3], km: 1, price: 1 },
        Sample { path: vec![3], km: 1, price: 1 },
    ];
    assert_eq!(isodapane_build::calibrate::covered_edges(&samples, 5), 2);
}

#[test]
fn the_page_gets_flat_tables() {
    let exact = vec![ExactPrice { a: 0, b: 2, adult2: 400, adult1: None, half2: Some(7), km: 11 }];
    let points = isotonic_curve(&vec![row(5, 1, 300, None)]);
    let w = build_web(5, &rail(), 600, &[10, 20, 30], &points, &exact);
    assert_eq!(w.adjacency, vec![vec![1], vec![0, 2], vec![1], vec![4], vec![3]]);
    assert_eq!(w.edge_km, vec![vec![10], vec![10, 20], vec![20], vec![30], vec![30]]);
    assert_eq!(w.edge_secs, vec![vec![60], vec![60, 70], vec![70], vec![80], vec![80]]);
    assert_eq!((w.exact.a, w.exact.b, w.exact.p2), (vec![0], vec![2], vec![400]));
    assert_eq!((w.exact.p1, w.exact.ph, w.exact.km), (vec![-1], vec![7], vec![11]));
    assert_eq!(w.curve.km, vec![5]);
    assert_eq!(w.curve.p2, vec![Mean { num: 300, den: 1 }]);
    assert_eq!(w.curve.p1, vec![Mean { num: 0, den: 1 }]);
}

#[test]
fn surplus_tariff_kilometres_are_ignored() {
    let points = isotonic_curve(&vec![row(5, 1, 300, None)]);
    let w = build_web(5, &rail(), 600, &[10, 20, 30, 99], &points, &vec![]);
    assert_eq!(w.edge_km, vec![vec![10], vec![10, 20], vec![20], vec![30], vec![30]]);
}

const UNIONS: &str = r##"{"features": [
    {"properties": {"partners_json":
        "{\"code\": \"110\", \"name\": \"ZVV\", \"colour\": \"#00f\"} ; {broken};{\"code\": \"120\", \"name\": \"Ostwind\"}"}},
    {"properties": {"partners_json": [{"code": "120", "name": "OSTWIND"}, {"code": "999"}]}},
    {"properties": {"partners_json": {"code": "045", "name": "A-Welle", "url": "https://a-welle.ch"}}},
    {"properties": {"partners_json": 7}},
    {"properties": {}},
    {}
]}"##;

#[test]
fn fare_unions_are_registered_by_size() {
    let r = build_fare_unions(UNIONS).unwrap();
    assert_eq!((r.covered, r.total), (3, 6));
    let found: Vec<(&str, &str, usize)> =
        r.unions.iter().map(|u| (u.code.as_str(), u.name.as_str(), u.municipalities)).collect();
    assert_eq!(found, vec![("120", "Ostwind", 2), ("045", "A-Welle", 1), ("110", "ZVV", 1)]);
    assert_eq!(r.unions[2].colour, "#00f");
    assert_eq!(r.unions[2].url, "");
    assert_eq!(r.unions[1].url, "https://a-welle.ch");
}

#[test]
fn broken_union_documents_are_refused() {
    assert_eq!(build_fare_unions("nothing").err(), Some(UnionError::NotJson));
    assert_eq!(build_fare_unions("{}").err(), Some(UnionError::NoFeatures));
}

#[test]
fn a_municipality_counts_once() {
    let partner = || {
        Json::Object(vec![
            (String::from("code"), Json::Text(String::from("1"))),
            (String::from("name"), Json::Text(String::from("one"))),
        ])
    };
    let r = register_unions(&vec![vec![partner(), partner()], vec![], vec![partner()]]);
    assert_eq!(r.unions.len(), 1);
    assert_eq!(r.unions[0].municipalities, 2);
    assert_eq!((r.covered, r.total), (2, 3));
    assert!(partners_of(&Json::Null).is_empty());
    assert!(partners_of(&Json::Text(String::from("; ;"))).is_empty());
}

#[test]
fn the_first_mention_names_a_union() {
    let partner = |name: &str| {
        Json::Object(vec![
            (String::from("code"), Json::Text(String::from("1"))),
            (String::from("name"), Json::Text(String::from(name))),
        ])
    };
    let r = register_unions(&vec![vec![partner("one"), partner("two")], vec![partner("three")]]);
    assert_eq!(r.unions.len(), 1);
    assert_eq!((r.unions[0].name.as_str(), r.unions[0].municipalities), ("one", 2));
}

#[test]
fn sources_are_where_they_are_published() {
    assert!(OSDM_URL.starts_with("https://data.opentransportdata.swiss/dataset/"));
    assert!(OSDM_URL.ends_with("/download/osdm_delivery_10_7.zip"));
    assert_eq!(OSDM_DATASET, "https://data.opentransportdata.swiss/en/dataset/osdm-offline");
    assert!(TVK_URL.ends_with("/tarifverbundkarte/exports/geojson"));
}
