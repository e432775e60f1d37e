//! The price table.

use isodapane_build::fares::{
    Class, FareTable, MissingStufe, Prices, Reduction, Tarifstufe, MAX_STUFE,
};

fn row(stufe: u32, second: f64, first: f64, reduced: f64) -> Tarifstufe<f64> {
    Tarifstufe {
        stufe,
        label: String::from("Zonen"),
        validity_minutes: 60,
        prices: Prices { second, first, reduced_second: reduced, reduced_first: reduced * 2.0 },
    }
}

fn table() -> FareTable<f64> {
    FareTable {
        valid_from: String::from("2025-12-14"),
        source: String::from("zvv.ch"),
        stufen: vec![
            row(1, 2.80, 4.70, 2.40),
            row(2, 4.70, 7.80, 3.20),
            row(3, 7.20, 12.00, 3.80),
            row(4, 9.40, 15.60, 4.70),
            row(5, 11.40, 19.00, 5.70),
            row(6, 13.60, 22.60, 6.80),
            row(7, 15.80, 26.20, 7.90),
            row(8, 18.00, 29.80, 9.00),
        ],
    }
}

#[test]
fn weight_maps_to_tarifstufe() {
    assert_eq!(FareTable::<f64>::stufe_for_weight(1), 1);
    assert_eq!(FareTable::<f64>::stufe_for_weight(2), 2);
    assert_eq!(FareTable::<f64>::stufe_for_weight(7), 7);
    assert_eq!(FareTable::<f64>::stufe_for_weight(8), 8);
    assert_eq!(FareTable::<f64>::stufe_for_weight(30), 8, "caps at all-zones");
}

#[test]
fn known_prices_round_trip() {
    let t = table();
    assert_eq!(t.price(1, Class::Second, Reduction::Full), Some(2.80));
    assert_eq!(t.price(2, Class::Second, Reduction::Full), Some(4.70));
    assert_eq!(t.price(2, Class::First, Reduction::Full), Some(7.80));
    assert_eq!(t.price(8, Class::Second, Reduction::Reduced), Some(9.00));
    assert_eq!(t.price(12, Class::Second, Reduction::Full), Some(18.00));
}

#[test]
fn prices_increase_with_zone_count() {
    let t = table();
    let mut prev = 0.0;
    for w in 1..=8 {
        let p = t.price(w, Class::Second, Reduction::Full).unwrap();
        assert!(p > prev, "Stufe {w} priced {p}, not above {prev}");
        prev = p;
    }
}

#[test]
fn no_weight_is_below_the_first_stufe() {
    assert_eq!(FareTable::<u64>::stufe_for_weight(0), 1);
    assert_eq!(FareTable::<u64>::stufe_for_weight(u32::MAX), MAX_STUFE);
}

#[test]
fn a_complete_table_prices_every_weight() {
    let t = table();
    assert!(t.check().is_ok());
    for w in 0..40 {
        assert!(t.price(w, Class::First, Reduction::Reduced).is_some());
    }
}

#[test]
fn the_first_missing_stufe_is_named() {
    let mut t = table();
    t.stufen.remove(6);
    t.stufen.remove(2);
    assert_eq!(t.check(), Err(MissingStufe { stufe: 3 }));
    assert_eq!(t.price(3, Class::Second, Reduction::Full), None);
    assert_eq!(t.price(8, Class::First, Reduction::Reduced), Some(18.00));
}

#[test]
fn the_first_of_two_rows_counts() {
    let mut t = table();
    t.stufen.push(row(1, 99.0, 99.0, 99.0));
    assert_eq!(t.price(1, Class::Second, Reduction::Full), Some(2.80));
}
