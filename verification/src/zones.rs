//! Fare-zone polygons: dissolving the features of a GeoJSON document by zone
//! number.
//!
//! Coordinates stay as `serde_json` displays them; projecting and simplifying them
//! is for whoever draws them.

use crate::json::{
    field, items_in, lemma_trees, parse_json, parsed_json, text_field, text_in, tree, trees,
    whole_in, Json, Tree,
};
use crate::text::{same, texts};
use crate::wfs::ZONE_FIELD;
use vstd::prelude::*;

verus! {

/// A polygon: its rings, the outer one first, each a list of positions, each a
/// list of numbers as `serde_json` displays them.
#[derive(Debug)]
pub struct Polygon {
    pub rings: Vec<Vec<Vec<String>>>,
}

/// One fare zone after dissolving.
#[derive(Debug)]
pub struct Zone {
    pub number: u32,
    pub polygons: Vec<Polygon>,
}

/// The zones of a document, and how many features carried no zone number.
#[derive(Debug)]
pub struct Dissolved {
    pub zones: Vec<Zone>,
    pub unassigned: usize,
}

#[derive(Debug)]
pub enum ZoneError {
    /// The text is no JSON document.
    NotJson,
    /// There is no `features` array.
    NoFeatures,
    /// The coordinates do not have the shape that the geometry type asks for.
    BadCoordinates,
    /// The geometry is neither a polygon nor a multipolygon.
    UnexpectedGeometry(Option<String>),
    /// No feature carries both a zone number and a polygon.
    NoZones,
}

/// What a [`ZoneError`] says.
pub enum Failure {
    NotJson,
    NoFeatures,
    BadCoordinates,
    UnexpectedGeometry(Option<Seq<char>>),
    NoZones,
}

impl View for ZoneError {
    type V = Failure;

    open spec fn view(&self) -> Failure {
        match self {
            ZoneError::NotJson => Failure::NotJson,
            ZoneError::NoFeatures => Failure::NoFeatures,
            ZoneError::BadCoordinates => Failure::BadCoordinates,
            ZoneError::UnexpectedGeometry(Some(name)) => Failure::UnexpectedGeometry(Some(name@)),
            ZoneError::UnexpectedGeometry(None) => Failure::UnexpectedGeometry(None),
            ZoneError::NoZones => Failure::NoZones,
        }
    }
}

// ------------------------------------------------------------ coordinates

/// The rings of a polygon as sequences.
pub open spec fn ring_texts(rings: Seq<Vec<Vec<String>>>) -> Seq<Seq<Seq<Seq<char>>>> {
    Seq::new(rings.len(), |i: int| position_texts(rings[i]@))
}

/// The positions of a ring as sequences.
pub open spec fn position_texts(positions: Seq<Vec<String>>) -> Seq<Seq<Seq<char>>> {
    Seq::new(positions.len(), |i: int| texts(positions[i]@))
}

/// The numbers that a list of JSON numbers is written with; nothing if any item
/// is no number.
pub open spec fn number_texts(t: Tree) -> Option<Seq<Seq<char>>> {
    match t {
        Tree::List(items) => if forall|i: int|
            0 <= i < items.len() ==> (#[trigger] items[i]) is Number {
            Some(Seq::new(items.len(), |i: int| items[i]->Number_text))
        } else {
            None
        },
        _ => None,
    }
}

/// A list of positions; nothing if any item is none.
pub open spec fn positions_in(t: Tree) -> Option<Seq<Seq<Seq<char>>>> {
    match t {
        Tree::List(items) => if forall|i: int|
            0 <= i < items.len() ==> number_texts(#[trigger] items[i]) is Some {
            Some(Seq::new(items.len(), |i: int| number_texts(items[i])->0))
        } else {
            None
        },
        _ => None,
    }
}

/// A list of rings; nothing if any item is none.
pub open spec fn rings_in(t: Tree) -> Option<Seq<Seq<Seq<Seq<char>>>>> {
    match t {
        Tree::List(items) => if forall|i: int|
            0 <= i < items.len() ==> positions_in(#[trigger] items[i]) is Some {
            Some(Seq::new(items.len(), |i: int| positions_in(items[i])->0))
        } else {
            None
        },
        _ => None,
    }
}

/// A list of polygons; nothing if any item is none.
pub open spec fn polygons_in(t: Tree) -> Option<Seq<Seq<Seq<Seq<Seq<char>>>>>> {
    match t {
        Tree::List(items) => if forall|i: int|
            0 <= i < items.len() ==> rings_in(#[trigger] items[i]) is Some {
            Some(Seq::new(items.len(), |i: int| rings_in(items[i])->0))
        } else {
            None
        },
        _ => None,
    }
}

fn read_numbers(j: &Json) -> (r: Option<Vec<String>>)
    ensures
        match r {
            Some(v) => number_texts(tree(*j)) == Some(texts(v@)),
            None => number_texts(tree(*j)) is None,
        },
{
    let items = match j.as_list() {
        Some(items) => items,
        None => {
            return None;
        },
    };
    let ghost all = trees(items@);
    proof {
        lemma_trees(items@);
    }
    let mut out: Vec<String> = Vec::new();
    let mut i: usize = 0;
    while i < items.len()
        invariant
            all == trees(items@),
            all.len() == items@.len(),
            tree(*j) == Tree::List(all),
            forall|k: int| 0 <= k < items@.len() ==> #[trigger] all[k] == tree(items@[k]),
            i <= items@.len(),
            out@.len() == i,
            forall|k: int| 0 <= k < i ==> (#[trigger] all[k]) is Number && all[k]->Number_text
                == out@[k]@,
        decreases items@.len() - i,
    {
        assert(all[i as int] == tree(items@[i as int]));
        match &items[i] {
            Json::Number { text, .. } => {
                out.push(text.clone());
            },
            _ => {
                assert(!(all[i as int] is Number));
                return None;
            },
        }
        i = i + 1;
    }
    assert(texts(out@) =~= number_texts(tree(*j))->0);
    Some(out)
}

fn read_positions(j: &Json) -> (r: Option<Vec<Vec<String>>>)
    ensures
        match r {
            Some(v) => positions_in(tree(*j)) == Some(position_texts(v@)),
            None => positions_in(tree(*j)) is None,
        },
{
    let items = match j.as_list() {
        Some(items) => items,
        None => {
            return None;
        },
    };
    let ghost all = trees(items@);
    proof {
        lemma_trees(items@);
    }
    let mut out: Vec<Vec<String>> = Vec::new();
    let mut i: usize = 0;
    while i < items.len()
        invariant
            all == trees(items@),
            all.len() == items@.len(),
            tree(*j) == Tree::List(all),
            forall|k: int| 0 <= k < items@.len() ==> #[trigger] all[k] == tree(items@[k]),
            i <= items@.len(),
            out@.len() == i,
            forall|k: int|
                0 <= k < i ==> number_texts(#[trigger] all[k]) == Some(texts(out@[k]@)),
        decreases items@.len() - i,
    {
        assert(all[i as int] == tree(items@[i as int]));
        match read_numbers(&items[i]) {
            Some(numbers) => {
                out.push(numbers);
            },
            None => {
                return None;
            },
        }
        i = i + 1;
    }
    assert(position_texts(out@) =~= positions_in(tree(*j))->0);
    Some(out)
}

fn read_rings(j: &Json) -> (r: Option<Vec<Vec<Vec<String>>>>)
    ensures
        match r {
            Some(v) => rings_in(tree(*j)) == Some(ring_texts(v@)),
            None => rings_in(tree(*j)) is None,
        },
{
    let items = match j.as_list() {
        Some(items) => items,
        None => {
            return None;
        },
    };
    let ghost all = trees(items@);
    proof {
        lemma_trees(items@);
    }
    let mut out: Vec<Vec<Vec<String>>> = Vec::new();
    let mut i: usize = 0;
    while i < items.len()
        invariant
            all == trees(items@),
            all.len() == items@.len(),
            tree(*j) == Tree::List(all),
            forall|k: int| 0 <= k < items@.len() ==> #[trigger] all[k] == tree(items@[k]),
            i <= items@.len(),
            out@.len() == i,
            forall|k: int|
                0 <= k < i ==> positions_in(#[trigger] all[k]) == Some(position_texts(out@[k]@)),
        decreases items@.len() - i,
    {
        assert(all[i as int] == tree(items@[i as int]));
        match read_positions(&items[i]) {
            Some(positions) => {
                out.push(positions);
            },
            None => {
                return None;
            },
        }
        i = i + 1;
    }
    assert(ring_texts(out@) =~= rings_in(tree(*j))->0);
    Some(out)
}

// ------------------------------------------------------------- dissolving

/// A polygon as a sequence of rings.
pub type Rings = Seq<Seq<Seq<Seq<char>>>>;

/// The polygons of a list that have any ring at all.
pub open spec fn with_rings(polys: Seq<Rings>) -> Seq<Rings>
    decreases polys.len(),
{
    if polys.len() == 0 {
        Seq::empty()
    } else if polys.last().len() == 0 {
        with_rings(polys.drop_last())
    } else {
        with_rings(polys.drop_last()).push(polys.last())
    }
}

/// The polygons of a feature, or what is wrong with it.
pub open spec fn feature_polygons(feature: Tree) -> Result<Seq<Rings>, Failure> {
    let geometry = field(feature, "geometry"@);
    let coordinates = field(geometry, "coordinates"@);
    let kind = text_in(field(geometry, "type"@));
    if kind == Some("Polygon"@) {
        match rings_in(coordinates) {
            Some(rings) => Ok(with_rings(seq![rings])),
            None => Err(Failure::BadCoordinates),
        }
    } else if kind == Some("MultiPolygon"@) {
        match polygons_in(coordinates) {
            Some(polys) => Ok(with_rings(polys)),
            None => Err(Failure::BadCoordinates),
        }
    } else {
        Err(Failure::UnexpectedGeometry(kind))
    }
}

/// The zone number of a feature, in 32 bits.
pub open spec fn feature_zone(feature: Tree) -> Option<u32> {
    match whole_in(field(field(feature, "properties"@), ZONE_FIELD@)) {
        Some(number) => Some((number % 0x1_0000_0000) as u32),
        None => None,
    }
}

/// How far dissolving has got.
pub struct Dissolving {
    pub by_zone: Map<u32, Seq<Rings>>,
    pub unassigned: nat,
}

/// A zone with these polygons added to those it has.
pub open spec fn with_polygons(
    by_zone: Map<u32, Seq<Rings>>,
    number: u32,
    polys: Seq<Rings>,
) -> Map<u32, Seq<Rings>> {
    if polys.len() == 0 {
        by_zone
    } else if by_zone.dom().contains(number) {
        by_zone.insert(number, by_zone[number] + polys)
    } else {
        by_zone.insert(number, polys)
    }
}

/// The first `k` features dissolved, or the first failure among them. A feature
/// without a zone number holds no tariff information and is only counted.
pub open spec fn dissolved_upto(features: Seq<Tree>, k: nat) -> Result<Dissolving, Failure>
    decreases k,
{
    if k == 0 {
        Ok(Dissolving { by_zone: Map::empty(), unassigned: 0 })
    } else {
        match dissolved_upto(features, (k - 1) as nat) {
            Err(e) => Err(e),
            Ok(d) => match feature_zone(features[k - 1]) {
                None => Ok(Dissolving { by_zone: d.by_zone, unassigned: d.unassigned + 1 }),
                Some(number) => match feature_polygons(features[k - 1]) {
                    Err(e) => Err(e),
                    Ok(polys) => Ok(
                        Dissolving {
                            by_zone: with_polygons(d.by_zone, number, polys),
                            unassigned: d.unassigned,
                        },
                    ),
                },
            },
        }
    }
}

/// A document dissolved, or what is wrong with it.
pub open spec fn dissolved(t: Tree) -> Result<Dissolving, Failure> {
    match items_in(field(t, "features"@)) {
        None => Err(Failure::NoFeatures),
        Some(features) => match dissolved_upto(features, features.len()) {
            Err(e) => Err(e),
            Ok(d) => if d.by_zone.dom() == Set::<u32>::empty() {
                Err(Failure::NoZones)
            } else {
                Ok(d)
            },
        },
    }
}

/// The polygons of a zone as sequences.
pub open spec fn polygon_texts(polygons: Seq<Polygon>) -> Seq<Rings> {
    Seq::new(polygons.len(), |i: int| ring_texts(polygons[i].rings@))
}

/// Whether a list of zones is a map by zone number, in increasing order.
pub open spec fn lists_zones(zones: Seq<Zone>, by_zone: Map<u32, Seq<Rings>>) -> bool {
    &&& forall|i: int, j: int|
        #![trigger zones[i], zones[j]]
        0 <= i < j < zones.len() ==> zones[i].number < zones[j].number
    &&& forall|i: int|
        0 <= i < zones.len() ==> {
            &&& by_zone.dom().contains((#[trigger] zones[i]).number)
            &&& by_zone[zones[i].number] == polygon_texts(zones[i].polygons@)
        }
    &&& forall|number: u32| #[trigger]
        by_zone.dom().contains(number) ==> exists|i: int|
            0 <= i < zones.len() && (#[trigger] zones[i]).number == number
}

/// Reads the polygons of a feature.
fn read_feature(feature: &Json) -> (r: Result<Vec<Polygon>, ZoneError>)
    ensures
        match r {
            Ok(polys) => feature_polygons(tree(*feature)) == Ok::<Seq<Rings>, Failure>(
                polygon_texts(polys@),
            ),
            Err(e) => feature_polygons(tree(*feature)) == Err::<Seq<Rings>, Failure>(e@),
        },
{
    let ghost t = field(tree(*feature), "geometry"@);
    let geometry = match feature.get("geometry") {
        Some(geometry) => geometry,
        None => {
            return Err(ZoneError::UnexpectedGeometry(None));
        },
    };
    let kind = match text_field(geometry, "type") {
        Some(kind) => kind,
        None => {
            return Err(ZoneError::UnexpectedGeometry(None));
        },
    };
    let single = same(kind.as_str(), "Polygon");
    if !single && !same(kind.as_str(), "MultiPolygon") {
        return Err(ZoneError::UnexpectedGeometry(Some(kind.clone())));
    }
    proof {
        reveal_strlit("Polygon");
        reveal_strlit("MultiPolygon");
        assert("Polygon"@.len() != "MultiPolygon"@.len());
    }
    let coordinates = match geometry.get("coordinates") {
        Some(coordinates) => coordinates,
        None => {
            return Err(ZoneError::BadCoordinates);
        },
    };
    if single {
        match read_rings(coordinates) {
            None => Err(ZoneError::BadCoordinates),
            Some(rings) => {
                let mut out: Vec<Polygon> = Vec::new();
                let ghost one = seq![ring_texts(rings@)];
                assert(one.drop_last() =~= Seq::<Rings>::empty());
                assert(with_rings(one.drop_last()) =~= Seq::<Rings>::empty());
                if rings.len() > 0 {
                    out.push(Polygon { rings });
                }
                assert(polygon_texts(out@) =~= with_rings(one));
                Ok(out)
            },
        }
    } else {
        let items = match coordinates.as_list() {
            Some(items) => items,
            None => {
                return Err(ZoneError::BadCoordinates);
            },
        };
        let ghost all = trees(items@);
        let ghost t2 = tree(*coordinates);
        proof {
            lemma_trees(items@);
        }
        let mut out: Vec<Polygon> = Vec::new();
        let ghost mut polys: Seq<Rings> = Seq::empty();
        assert(polygon_texts(out@) =~= with_rings(polys));
        let mut i: usize = 0;
        while i < items.len()
            invariant
                all == trees(items@),
                all.len() == items@.len(),
                t2 == Tree::List(all),
                forall|k: int| 0 <= k < items@.len() ==> #[trigger] all[k] == tree(items@[k]),
                i <= items@.len(),
                polys.len() == i,
                forall|k: int| 0 <= k < i ==> rings_in(#[trigger] all[k]) == Some(polys[k]),
                polygon_texts(out@) == with_rings(polys),
                t2 == tree(*coordinates),
                coordinates_of(tree(*feature)) == t2,
                kind_of(tree(*feature)) == Some("MultiPolygon"@),
                "Polygon"@ != "MultiPolygon"@,
            decreases items@.len() - i,
        {
            assert(all[i as int] == tree(items@[i as int]));
            match read_rings(&items[i]) {
                None => {
                    assert(polygons_in(t2) is None);
                    return Err(ZoneError::BadCoordinates);
                },
                Some(rings) => {
                    let ghost before = polys;
                    let ghost listed = polygon_texts(out@);
                    proof {
                        polys = polys.push(ring_texts(rings@));
                        assert(polys.drop_last() =~= before);
                    }
                    let ghost shown = ring_texts(rings@);
                    if rings.len() > 0 {
                        out.push(Polygon { rings });
                        assert(polygon_texts(out@) =~= listed.push(shown));
                    }
                },
            }
            i = i + 1;
        }
        proof {
            assert(polygons_in(t2) is Some);
            assert(polygons_in(t2)->0 =~= polys);
        }
        Ok(out)
    }
}

/// The coordinates of a feature.
pub open spec fn coordinates_of(feature: Tree) -> Tree {
    field(field(feature, "geometry"@), "coordinates"@)
}

/// The geometry type of a feature.
pub open spec fn kind_of(feature: Tree) -> Option<Seq<char>> {
    text_in(field(field(feature, "geometry"@), "type"@))
}

fn read_zone_number(feature: &Json) -> (r: Option<u32>)
    ensures
        r == feature_zone(tree(*feature)),
{
    let properties = match feature.get("properties") {
        Some(properties) => properties,
        None => {
            return None;
        },
    };
    let value = match properties.get(ZONE_FIELD) {
        Some(value) => value,
        None => {
            return None;
        },
    };
    match value.as_whole() {
        Some(number) => Some((number % 0x1_0000_0000) as u32),
        None => None,
    }
}

/// Where a zone number stands in a list of zones, or where it belongs.
fn zone_place(zones: &Vec<Zone>, number: u32) -> (r: (usize, bool))
    requires
        forall|i: int, j: int|
            #![trigger zones@[i], zones@[j]]
            0 <= i < j < zones@.len() ==> zones@[i].number < zones@[j].number,
    ensures
        r.0 <= zones@.len(),
        forall|i: int| 0 <= i < r.0 ==> (#[trigger] zones@[i]).number < number,
        r.1 ==> r.0 < zones@.len() && zones@[r.0 as int].number == number,
        !r.1 ==> forall|i: int| r.0 <= i < zones@.len() ==> (#[trigger] zones@[i]).number > number,
{
    let mut i: usize = 0;
    while i < zones.len() && zones[i].number < number
        invariant
            i <= zones@.len(),
            forall|k: int| 0 <= k < i ==> (#[trigger] zones@[k]).number < number,
        decreases zones@.len() - i,
    {
        i = i + 1;
    }
    let found = i < zones.len() && zones[i].number == number;
    proof {
        if !found {
            assert forall|k: int| i <= k < zones@.len() implies (#[trigger] zones@[k]).number
                > number by {
                if k > i {
                    assert(zones@[i as int].number < zones@[k].number);
                }
            }
        }
    }
    (i, found)
}

/// Adds polygons to a zone.
fn add_polygons(
    zones: &mut Vec<Zone>,
    number: u32,
    polys: Vec<Polygon>,
    by_zone: Ghost<Map<u32, Seq<Rings>>>,
)
    requires
        lists_zones(old(zones)@, by_zone@),
    ensures
        lists_zones(
            final(zones)@,
            with_polygons(by_zone@, number, polygon_texts(polys@)),
        ),
{
    if polys.len() == 0 {
        return ;
    }
    let (at, found) = zone_place(zones, number);
    let ghost before = zones@;
    let ghost added = polygon_texts(polys@);
    let ghost after = with_polygons(by_zone@, number, added);
    if found {
        let mut zone = zones.remove(at);
        let ghost kept = zone.polygons@;
        let mut more = polys;
        let ghost extra = more@;
        zone.polygons.append(&mut more);
        let ghost done = zone;
        zones.insert(at, zone);
        proof {
            assert(zones@ =~= before.update(at as int, done));
            assert(polygon_texts(done.polygons@) =~= polygon_texts(kept) + added);
            assert forall|i: int| 0 <= i < zones@.len() implies {
                &&& after.dom().contains((#[trigger] zones@[i]).number)
                &&& after[zones@[i].number] == polygon_texts(zones@[i].polygons@)
            } by {
                assert(by_zone@.dom().contains(before[i].number));
                if i < at {
                    assert(before[i].number < before[at as int].number);
                } else if i > at {
                    assert(before[at as int].number < before[i].number);
                }
            }
            assert forall|m: u32| #[trigger] after.dom().contains(m) implies exists|i: int|
                0 <= i < zones@.len() && (#[trigger] zones@[i]).number == m by {
                if m == number {
                    assert(zones@[at as int].number == number);
                } else {
                    assert(by_zone@.dom().contains(m));
                    let i = choose|i: int|
                        0 <= i < before.len() && (#[trigger] before[i]).number == m;
                    assert(zones@[i].number == m);
                }
            }
        }
    } else {
        let zone = Zone { number, polygons: polys };
        let ghost done = zone;
        zones.insert(at, zone);
        proof {
            assert(zones@ =~= before.insert(at as int, done));
            assert forall|i: int| 0 <= i < zones@.len() implies #[trigger] zones@[i] == (if i < at {
                before[i]
            } else if i == at {
                done
            } else {
                before[i - 1]
            }) by {}
            if by_zone@.dom().contains(number) {
                let i = choose|i: int|
                    0 <= i < before.len() && (#[trigger] before[i]).number == number;
                assert(before[i].number == number);
                assert(false);
            }
            assert forall|i: int| 0 <= i < zones@.len() implies {
                &&& after.dom().contains((#[trigger] zones@[i]).number)
                &&& after[zones@[i].number] == polygon_texts(zones@[i].polygons@)
            } by {
                if i < at {
                    assert(by_zone@.dom().contains(before[i].number));
                } else if i > at {
                    assert(by_zone@.dom().contains(before[i - 1].number));
                }
            }
            assert forall|m: u32| #[trigger] after.dom().contains(m) implies exists|i: int|
                0 <= i < zones@.len() && (#[trigger] zones@[i]).number == m by {
                if m == number {
                    assert(zones@[at as int].number == number);
                } else {
                    assert(by_zone@.dom().contains(m));
                    let i = choose|i: int|
                        0 <= i < before.len() && (#[trigger] before[i]).number == m;
                    if i < at {
                        assert(zones@[i].number == m);
                    } else {
                        assert(zones@[i + 1].number == m);
                    }
                }
            }
            assert forall|i: int, j: int|
                #![trigger zones@[i], zones@[j]]
                0 <= i < j < zones@.len() implies zones@[i].number < zones@[j].number by {
                let a = if i < at {
                    i
                } else {
                    i - 1
                };
                let b = if j < at {
                    j
                } else {
                    j - 1
                };
                if i != at && j != at {
                    assert(before[a].number < before[b].number);
                } else if i == at {
                    assert(before[b].number > number);
                } else {
                    assert(before[a].number < number);
                }
            }
        }
    }
}

/// Dissolves the features of a document into one zone per number.
///
/// A zone commonly arrives as several disjoint polygons; it must end as a single
/// feature. Features without a zone number cover lakes and unserved ridges; they
/// cannot price anything and are dropped.
pub fn dissolve(document: &Json) -> (r: Result<Dissolved, ZoneError>)
    ensures
        match r {
            Ok(d) => {
                &&& dissolved(tree(*document)) is Ok
                &&& lists_zones(d.zones@, dissolved(tree(*document))->Ok_0.by_zone)
                &&& d.unassigned == dissolved(tree(*document))->Ok_0.unassigned
            },
            Err(e) => dissolved(tree(*document)) == Err::<Dissolving, Failure>(e@),
        },
{
    let list = match document.get("features") {
        Some(list) => list,
        None => {
            return Err(ZoneError::NoFeatures);
        },
    };
    let features = match list.as_list() {
        Some(features) => features,
        None => {
            return Err(ZoneError::NoFeatures);
        },
    };
    let ghost all = trees(features@);
    proof {
        lemma_trees(features@);
    }
    let mut zones: Vec<Zone> = Vec::new();
    let mut unassigned: usize = 0;
    let ghost mut state = Dissolving { by_zone: Map::empty(), unassigned: 0 };
    let mut i: usize = 0;
    while i < features.len()
        invariant
            all == trees(features@),
            all.len() == features@.len(),
            items_in(field(tree(*document), "features"@)) == Some(all),
            forall|k: int| 0 <= k < features@.len() ==> #[trigger] all[k] == tree(features@[k]),
            i <= features@.len(),
            dissolved_upto(all, i as nat) == Ok::<Dissolving, Failure>(state),
            lists_zones(zones@, state.by_zone),
            unassigned == state.unassigned,
            unassigned <= i,
        decreases features@.len() - i,
    {
        let feature = &features[i];
        assert(all[i as int] == tree(*feature));
        match read_zone_number(feature) {
            None => {
                unassigned = unassigned + 1;
                proof {
                    state = Dissolving { by_zone: state.by_zone, unassigned: state.unassigned + 1 };
                }
            },
            Some(number) => match read_feature(feature) {
                Err(e) => {
                    proof {
                        assert(dissolved_upto(all, (i + 1) as nat) == Err::<Dissolving, Failure>(e@));
                        lemma_failure_stays(all, (i + 1) as nat, all.len());
                    }
                    return Err(e);
                },
                Ok(polys) => {
                    let ghost shown = polygon_texts(polys@);
                    add_polygons(&mut zones, number, polys, Ghost(state.by_zone));
                    proof {
                        state = Dissolving {
                            by_zone: with_polygons(state.by_zone, number, shown),
                            unassigned: state.unassigned,
                        };
                    }
                },
            },
        }
        i = i + 1;
    }
    if zones.len() == 0 {
        assert(state.by_zone.dom() =~= Set::<u32>::empty());
        return Err(ZoneError::NoZones);
    }
    assert(state.by_zone.dom().contains(zones@[0].number));
    Ok(Dissolved { zones, unassigned })
}

proof fn lemma_failure_stays(features: Seq<Tree>, k: nat, m: nat)
    requires
        k <= m,
        dissolved_upto(features, k) is Err,
    ensures
        dissolved_upto(features, m) == dissolved_upto(features, k),
    decreases m,
{
    if k < m {
        lemma_failure_stays(features, k, (m - 1) as nat);
    }
}

/// Reads a GeoJSON text and dissolves its features into one zone per number.
pub fn load_and_dissolve(text: &str) -> (r: Result<Dissolved, ZoneError>)
    ensures
        match r {
            Ok(d) => {
                &&& parsed_json(text@) is Some
                &&& dissolved(parsed_json(text@)->0) is Ok
                &&& lists_zones(d.zones@, dissolved(parsed_json(text@)->0)->Ok_0.by_zone)
                &&& d.unassigned == dissolved(parsed_json(text@)->0)->Ok_0.unassigned
            },
            Err(e) => match parsed_json(text@) {
                None => e@ == Failure::NotJson,
                Some(t) => dissolved(t) == Err::<Dissolving, Failure>(e@),
            },
        },
{
    match parse_json(text) {
        None => Err(ZoneError::NotJson),
        Some(document) => dissolve(&document),
    }
}

// ------------------------------------------------- what a document's zones are

/// A polygon's coordinates are read level by level: a list of rings, each a list of
/// positions, each a list of numbers, every number as it is displayed. Anything else at
/// any level is no polygon.
pub proof fn law_rings_are_lists_of_lists_of_numbers(t: Tree)
    ensures
        rings_in(t) is Some <==> t is List && forall|i: int|
            0 <= i < t->List_0.len() ==> (#[trigger] t->List_0[i]) is List && forall|j: int|
                0 <= j < t->List_0[i]->List_0.len() ==> (
                #[trigger] t->List_0[i]->List_0[j]) is List && forall|k: int|
                    0 <= k < t->List_0[i]->List_0[j]->List_0.len() ==> (
                    #[trigger] t->List_0[i]->List_0[j]->List_0[k]) is Number,
        rings_in(t) is Some ==> {
            &&& rings_in(t)->0.len() == t->List_0.len()
            &&& forall|i: int|
                #![trigger rings_in(t)->0[i]]
                0 <= i < t->List_0.len() ==> {
                    &&& rings_in(t)->0[i].len() == t->List_0[i]->List_0.len()
                    &&& forall|j: int|
                        #![trigger rings_in(t)->0[i][j]]
                        0 <= j < rings_in(t)->0[i].len() ==> {
                            &&& rings_in(t)->0[i][j].len() == t->List_0[i]->List_0[j]->List_0.len()
                            &&& forall|k: int|
                                0 <= k < rings_in(t)->0[i][j].len()
                                    ==> #[trigger] rings_in(t)->0[i][j][k]
                                    == t->List_0[i]->List_0[j]->List_0[k]->Number_text
                        }
                }
        },
{
    if t is List {
        let items = t->List_0;
        assert forall|i: int| 0 <= i < items.len() implies (positions_in(
            #[trigger] items[i],
        ) is Some <==> items[i] is List && forall|j: int|
            0 <= j < items[i]->List_0.len() ==> (#[trigger] items[i]->List_0[j]) is List && forall|
                k: int,
            |
                0 <= k < items[i]->List_0[j]->List_0.len() ==> (
                #[trigger] items[i]->List_0[j]->List_0[k]) is Number) by {
            lemma_positions(items[i]);
        }
        if rings_in(t) is Some {
            assert forall|i: int| 0 <= i < items.len() implies positions_in(
                #[trigger] items[i],
            ) is Some by {}
        } else {
            let i = choose|i: int|
                0 <= i < items.len() && positions_in(#[trigger] items[i]) is None;
            assert(t->List_0[i] == items[i]);
        }
    }
}

proof fn lemma_positions(t: Tree)
    ensures
        positions_in(t) is Some <==> t is List && forall|j: int|
            0 <= j < t->List_0.len() ==> (#[trigger] t->List_0[j]) is List && forall|k: int|
                0 <= k < t->List_0[j]->List_0.len() ==> (
                #[trigger] t->List_0[j]->List_0[k]) is Number,
{
    if t is List {
        let items = t->List_0;
        assert forall|j: int| 0 <= j < items.len() implies (number_texts(
            #[trigger] items[j],
        ) is Some <==> items[j] is List && forall|k: int|
            0 <= k < items[j]->List_0.len() ==> (#[trigger] items[j]->List_0[k]) is Number) by {
            if items[j] is List {
                let inner = items[j]->List_0;
                if number_texts(items[j]) is None {
                    let k = choose|k: int| 0 <= k < inner.len() && !((#[trigger] inner[k]) is Number);
                    assert(items[j]->List_0[k] == inner[k]);
                }
            }
        }
        if positions_in(t) is None {
            let j = choose|j: int|
                0 <= j < items.len() && number_texts(#[trigger] items[j]) is None;
            assert(t->List_0[j] == items[j]);
        } else {
            assert forall|j: int| 0 <= j < items.len() implies number_texts(
                #[trigger] items[j],
            ) is Some by {}
        }
    }
}

/// Several polygons are a list of such.
pub proof fn law_polygons_are_lists_of_rings(t: Tree)
    ensures
        polygons_in(t) is Some <==> t is List && forall|i: int|
            0 <= i < t->List_0.len() ==> rings_in(#[trigger] t->List_0[i]) is Some,
        polygons_in(t) is Some ==> polygons_in(t)->0 == Seq::new(
            t->List_0.len(),
            |i: int| rings_in(t->List_0[i])->0,
        ),
{
}

/// What a feature is: its geometry is one polygon or several, those without a ring are
/// left out, and any other kind of geometry or shape of coordinates is refused.
pub proof fn law_a_feature_is_one_polygon_or_several(feature: Tree)
    ensures
        ({
            let geometry = field(feature, "geometry"@);
            let kind = text_in(field(geometry, "type"@));
            let coordinates = field(geometry, "coordinates"@);
            let read = feature_polygons(feature);
            &&& kind == Some("Polygon"@) ==> match rings_in(coordinates) {
                Some(rings) => read == Ok::<Seq<Rings>, Failure>(
                    if rings.len() > 0 {
                        seq![rings]
                    } else {
                        Seq::empty()
                    },
                ),
                None => read == Err::<Seq<Rings>, Failure>(Failure::BadCoordinates),
            }
            &&& kind == Some("MultiPolygon"@) ==> match polygons_in(coordinates) {
                Some(polys) => read == Ok::<Seq<Rings>, Failure>(
                    polys.filter(|rings: Rings| rings.len() > 0),
                ),
                None => read == Err::<Seq<Rings>, Failure>(Failure::BadCoordinates),
            }
            &&& kind != Some("Polygon"@) && kind != Some("MultiPolygon"@) ==> read == Err::<
                Seq<Rings>,
                Failure,
            >(Failure::UnexpectedGeometry(kind))
        }),
{
    reveal_strlit("Polygon");
    reveal_strlit("MultiPolygon");
    assert("Polygon"@.len() != "MultiPolygon"@.len());
    let coordinates = field(field(feature, "geometry"@), "coordinates"@);
    if let Some(rings) = rings_in(coordinates) {
        let one = seq![rings];
        assert(one.drop_last() =~= Seq::empty());
        assert(with_rings(one.drop_last()) =~= Seq::empty());
        assert(with_rings(one) =~= if rings.len() > 0 {
            seq![rings]
        } else {
            Seq::empty()
        });
    }
    if let Some(polys) = polygons_in(coordinates) {
        lemma_with_rings(polys);
    }
}

proof fn lemma_with_rings(polys: Seq<Rings>)
    ensures
        with_rings(polys) == polys.filter(|rings: Rings| rings.len() > 0),
    decreases polys.len(),
{
    reveal(Seq::filter);
    if polys.len() > 0 {
        lemma_with_rings(polys.drop_last());
    }
}

/// A feature's zone is the number its properties give, taken to 32 bits.
pub proof fn law_a_feature_names_its_zone(feature: Tree)
    ensures
        ({
            let number = whole_in(field(field(feature, "properties"@), "zone"@));
            &&& feature_zone(feature) is Some <==> number is Some
            &&& number is Some && number->0 <= u32::MAX ==> feature_zone(feature)->0 == number->0
            &&& number is Some ==> feature_zone(feature)->0 == number->0 % 0x1_0000_0000
        }),
{
}

/// A zone holds the polygons of all features that name it, in their order; a zone is
/// listed when it has any; features without a zone are counted.
pub proof fn law_a_zone_holds_its_features(features: Seq<Tree>, k: nat, number: u32)
    requires
        k <= features.len(),
        dissolved_upto(features, k) is Ok,
    ensures
        ({
            let d = dissolved_upto(features, k)->Ok_0;
            let own = features.take(k as int).filter_map(
                |f: Tree|
                    if feature_zone(f) == Some(number) {
                        Some(feature_polygons(f)->Ok_0)
                    } else {
                        None
                    },
            ).flatten_alt();
            &&& d.by_zone.dom().contains(number) <==> own.len() > 0
            &&& d.by_zone.dom().contains(number) ==> d.by_zone[number] == own
            &&& d.unassigned == features.take(k as int).filter(
                |f: Tree| feature_zone(f) is None,
            ).len()
        }),
    decreases k,
{
    reveal(Seq::filter);
    let take = |f: Tree|
        if feature_zone(f) == Some(number) {
            Some(feature_polygons(f)->Ok_0)
        } else {
            None
        };
    if k > 0 {
        assert(dissolved_upto(features, (k - 1) as nat) is Ok);
        law_a_zone_holds_its_features(features, (k - 1) as nat, number);
        assert(features.take(k as int).drop_last() =~= features.take(k - 1));
        let before = features.take(k - 1).filter_map(take);
        let after = features.take(k as int).filter_map(take);
        let feature = features[k - 1];
        if feature_zone(feature) == Some(number) {
            let polys = feature_polygons(feature)->Ok_0;
            assert(after =~= before.push(polys));
            assert(after.drop_last() =~= before);
            assert(after.flatten_alt() =~= before.flatten_alt() + polys);
        } else {
            assert(after =~= before);
        }
    } else {
        assert(features.take(0) =~= Seq::empty());
        assert(features.take(0).filter_map(take) =~= Seq::empty());
    }
}

/// A document is refused for its first feature that names a zone but has no readable
/// polygons, and for no other reason to do with features.
pub proof fn law_the_first_unreadable_feature_is_told(features: Seq<Tree>, k: nat)
    requires
        k <= features.len(),
    ensures
        dissolved_upto(features, k) is Err <==> exists|j: int|
            0 <= j < k && feature_zone(#[trigger] features[j]) is Some && feature_polygons(
                features[j],
            ) is Err,
        forall|j: int|
            0 <= j < k && feature_zone(#[trigger] features[j]) is Some && feature_polygons(
                features[j],
            ) is Err && (forall|i: int|
                0 <= i < j ==> feature_zone(#[trigger] features[i]) is None || feature_polygons(
                    features[i],
                ) is Ok) ==> dissolved_upto(features, k) == Err::<Dissolving, Failure>(
                feature_polygons(features[j])->Err_0,
            ),
    decreases k,
{
    if k > 0 {
        law_the_first_unreadable_feature_is_told(features, (k - 1) as nat);
        let last = features[k - 1];
        if dissolved_upto(features, (k - 1) as nat) is Err {
            let j = choose|j: int|
                0 <= j < k - 1 && feature_zone(#[trigger] features[j]) is Some && feature_polygons(
                    features[j],
                ) is Err;
            assert(feature_zone(features[j]) is Some);
        } else if feature_zone(last) is Some && feature_polygons(last) is Err {
            assert(feature_zone(features[k - 1]) is Some);
        }
    }
}

/// A document needs a list of features and at least one zone among them.
pub proof fn law_a_document_needs_zones(t: Tree)
    ensures
        ({
            let features = field(t, "features"@);
            &&& !(features is List) ==> dissolved(t) == Err::<Dissolving, Failure>(
                Failure::NoFeatures,
            )
            &&& features is List ==> match dissolved_upto(
                features->List_0,
                features->List_0.len(),
            ) {
                Err(e) => dissolved(t) == Err::<Dissolving, Failure>(e),
                Ok(d) => if exists|number: u32| d.by_zone.dom().contains(number) {
                    dissolved(t) == Ok::<Dissolving, Failure>(d)
                } else {
                    dissolved(t) == Err::<Dissolving, Failure>(Failure::NoZones)
                },
            }
        }),
{
    let features = field(t, "features"@);
    if features is List {
        if let Ok(d) = dissolved_upto(features->List_0, features->List_0.len()) {
            if exists|number: u32| d.by_zone.dom().contains(number) {
                let number = choose|number: u32| d.by_zone.dom().contains(number);
                assert(d.by_zone.dom() != Set::<u32>::empty());
            } else {
                assert(d.by_zone.dom() =~= Set::<u32>::empty());
            }
        }
    }
}

/// Zones come by number, none twice, each with its polygons' coordinates as read.
pub proof fn law_zones_come_by_number(
    zones: Seq<Zone>,
    by_zone: Map<u32, Seq<Rings>>,
    i: int,
    j: int,
)
    requires
        lists_zones(zones, by_zone),
        0 <= i < j < zones.len(),
    ensures
        zones[i].number < zones[j].number,
        by_zone.dom().contains(zones[i].number),
        by_zone[zones[i].number].len() == zones[i].polygons@.len(),
        forall|p: int, r: int, k: int, n: int|
            #![trigger zones[i].polygons@[p].rings@[r]@[k]@[n]]
            0 <= p < zones[i].polygons@.len() && 0 <= r < zones[i].polygons@[p].rings@.len() && 0
                <= k < zones[i].polygons@[p].rings@[r]@.len() && 0 <= n
                < zones[i].polygons@[p].rings@[r]@[k]@.len()
                ==> by_zone[zones[i].number][p][r][k][n]
                == zones[i].polygons@[p].rings@[r]@[k]@[n]@,
{
    assert(by_zone[zones[i].number] == polygon_texts(zones[i].polygons@));
}

} // verus!
