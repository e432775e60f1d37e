//! Zone sets and their tariff weights.

use isodapane_build::zoneset::{weight_for_zone, TooManyZones, ZoneIndex, ZoneSet};

fn idx() -> ZoneIndex {
    ZoneIndex::new(vec![110, 120, 121, 154, 155]).unwrap()
}

#[test]
fn subset_dominance() {
    let a = ZoneSet::empty().with(0).with(1);
    let b = ZoneSet::empty().with(0).with(1).with(2);
    assert!(a.is_subset_of(b));
    assert!(!b.is_subset_of(a));
    assert!(a.is_subset_of(a));
}

#[test]
fn union_is_idempotent() {
    let s = ZoneSet::single(3);
    assert_eq!(s.with(3), s, "re-entering a zone must cost nothing");
}

#[test]
fn city_zones_count_double() {
    let zi = idx();
    let z110 = zi.index_of(110).unwrap();
    let z154 = zi.index_of(154).unwrap();
    assert_eq!(zi.weight(ZoneSet::single(z110)), 2, "zone 110 counts double");
    assert_eq!(zi.weight(ZoneSet::single(z154)), 1);
    // Zürich HB -> Oerlikon: both inside 110, must bill as two zones.
    assert_eq!(zi.weight(ZoneSet::single(z110).with(z110)), 2);
}

#[test]
fn iter_yields_set_bits() {
    let s = ZoneSet::empty().with(0).with(5).with(63);
    assert_eq!(s.iter(), vec![0, 5, 63]);
    assert_eq!(s.len(), 3);
}

#[test]
fn empty_set_has_no_zones() {
    let s = ZoneSet::empty();
    assert!(s.is_empty());
    assert_eq!(s.len(), 0);
    assert!(s.iter().is_empty());
    assert!(!s.contains(0));
    assert!(!s.with(63).is_empty());
}

#[test]
fn union_holds_both_sides() {
    let s = ZoneSet::single(1).union(ZoneSet::single(63));
    assert!(s.contains(1) && s.contains(63) && !s.contains(2));
    assert_eq!(s.0, (1u64 << 1) | (1u64 << 63));
}

#[test]
fn numbers_are_sorted_without_repetition() {
    let zi = ZoneIndex::new(vec![155, 110, 155, 120]).unwrap();
    assert_eq!(zi.numbers(), &[110, 120, 155]);
    assert_eq!(zi.len(), 3);
    assert!(!zi.is_empty());
    assert_eq!(zi.number_at(2), 155);
    assert_eq!(zi.index_of(155), Some(2));
    assert_eq!(zi.index_of(111), None);
    assert!(ZoneIndex::new(vec![]).unwrap().is_empty());
}

#[test]
fn at_most_sixty_four_zones_fit() {
    assert_eq!(ZoneIndex::new((0..64).collect()).unwrap().len(), 64);
    let e = ZoneIndex::new((0..70).chain(0..70).collect()).unwrap_err();
    assert_eq!(e, TooManyZones { count: 70 });
}

#[test]
fn a_subset_never_costs_more() {
    let zi = idx();
    let small = ZoneSet::single(0).with(3);
    let large = small.with(1);
    let more = ZoneSet::single(4);
    assert!(small.is_subset_of(large));
    assert!(zi.weight(small) <= zi.weight(large));
    assert!(zi.weight(small.union(more)) <= zi.weight(large.union(more)));
}

#[test]
fn a_new_zone_adds_its_weight() {
    let zi = idx();
    let s = ZoneSet::single(3);
    assert_eq!(zi.weight(s.with(1)), zi.weight(s) + 2);
    assert_eq!(zi.weight(s.with(2)), zi.weight(s) + 1);
}

#[test]
fn only_the_two_cities_weigh_two() {
    assert_eq!(weight_for_zone(110), 2);
    assert_eq!(weight_for_zone(120), 2);
    assert_eq!(weight_for_zone(121), 1);
    assert_eq!(weight_for_zone(0), 1);
}
