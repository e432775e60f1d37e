//! Fare-zone geometry and where it is fetched from.

use isodapane_build::json::{parse_json, Json};
use isodapane_build::wfs::{check_body, zones_url};
use isodapane_build::zones::{dissolve, load_and_dissolve, ZoneError};

const SQUARES: &str = r#"{"features": [
    {"properties": {"zone": 121},
     "geometry": {"type": "Polygon", "coordinates": [[[2683200.5, 1], [2, 3]], [[4, 5]]]}},
    {"properties": {"zone": 110},
     "geometry": {"type": "MultiPolygon", "coordinates": [[[[1, 1]]], [], [[[2, 2]]]]}},
    {"properties": {"zone": null}, "geometry": null},
    {"properties": {"zone": 121},
     "geometry": {"type": "Polygon", "coordinates": [[[9, 9]]]}}
]}"#;

#[test]
fn features_dissolve_by_zone_number() {
    let d = load_and_dissolve(SQUARES).unwrap();
    assert_eq!(d.unassigned, 1);
    let numbers: Vec<u32> = d.zones.iter().map(|z| z.number).collect();
    assert_eq!(numbers, vec![110, 121]);
    assert_eq!(d.zones[0].polygons.len(), 2);
    assert_eq!(d.zones[1].polygons.len(), 2);
    assert_eq!(d.zones[1].polygons[0].rings.len(), 2);
    assert_eq!(d.zones[1].polygons[0].rings[0][0], vec!["2683200.5", "1"]);
    assert_eq!(d.zones[1].polygons[1].rings[0][0], vec!["9", "9"]);
}

fn refusal(text: &str) -> ZoneError {
    load_and_dissolve(text).unwrap_err()
}

#[test]
fn broken_zone_documents_are_refused() {
    assert!(matches!(refusal("{"), ZoneError::NotJson));
    assert!(matches!(refusal("{\"features\": 1}"), ZoneError::NoFeatures));
    assert!(matches!(refusal("[]"), ZoneError::NoFeatures));
    assert!(matches!(refusal("{\"features\": []}"), ZoneError::NoZones));
    let text = r#"{"features": [{"properties": {"zone": 1},
        "geometry": {"type": "Polygon", "coordinates": [[["a"]]]}}]}"#;
    assert!(matches!(refusal(text), ZoneError::BadCoordinates));
    let text = r#"{"features": [{"properties": {"zone": 1}, "geometry": {"type": "Point"}}]}"#;
    match refusal(text) {
        ZoneError::UnexpectedGeometry(kind) => assert_eq!(kind, Some(String::from("Point"))),
        other => panic!("{other:?}"),
    }
    let text = r#"{"features": [{"properties": {"zone": 1}}]}"#;
    assert!(matches!(refusal(text), ZoneError::UnexpectedGeometry(None)));
}

#[test]
fn a_document_can_be_built_by_hand() {
    let feature = Json::Object(vec![
        (
            String::from("properties"),
            Json::Object(vec![(
                String::from("zone"),
                Json::Number { text: String::from("154"), whole: Some(154) },
            )]),
        ),
        (
            String::from("geometry"),
            Json::Object(vec![
                (String::from("type"), Json::Text(String::from("Polygon"))),
                (String::from("coordinates"), Json::List(vec![])),
            ]),
        ),
    ]);
    let document = Json::Object(vec![(String::from("features"), Json::List(vec![feature]))]);
    assert!(matches!(dissolve(&document), Err(ZoneError::NoZones)));
}

#[test]
fn json_is_read_as_it_is_written() {
    let j = parse_json(r#"{"b": [true, null, "x\n"], "a": -1, "n": 12}"#).unwrap();
    assert_eq!(j.get("n").unwrap().as_whole(), Some(12));
    assert_eq!(j.get("a").unwrap().as_whole(), None);
    assert!(j.get("c").is_none());
    assert!(matches!(j.get("a"), Some(Json::Number { text, whole: None }) if text == "-1"));
    let items = j.get("b").unwrap().as_list().unwrap();
    assert!(matches!(items[0], Json::Bool(true)));
    assert!(matches!(items[1], Json::Null));
    assert_eq!(items[2].as_text().unwrap(), "x\n");
    assert!(items[2].as_list().is_none());
    assert!(items[0].as_text().is_none());
    assert!(parse_json("{} {}").is_none());
    assert!(parse_json("").is_none());
}

#[test]
fn zones_are_requested_from_the_canton() {
    assert_eq!(
        zones_url(),
        "https://maps.zh.ch/wfs/OGDZHWFS?Service=WFS&Version=2.0.0&Request=GetFeature\
         &typeName=ms:ogd-0348_giszhpub_zvv_tarifzonen_f&outputFormat=application/json\
         &srsName=EPSG:4326"
    );
}

#[test]
fn a_response_must_be_an_object() {
    assert!(check_body(b"{}").is_ok());
    assert!(check_body(b"").unwrap_err().start.is_empty());
    assert_eq!(check_body(b"<html>").unwrap_err().start, b"<html>".to_vec());
    let long = vec![b'x'; 500];
    assert_eq!(check_body(&long).unwrap_err().start.len(), 200);
}
