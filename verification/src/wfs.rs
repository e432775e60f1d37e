//! Where the fare-zone geometry and the timetable come from.
//!
//! The zones are the dataset "Tarifzonen des öffentlichen Verkehrs" (GIS-ZH
//! Nr. 348) of the Kanton Zürich. The server advertises EPSG:4326 and stamps it on
//! its output, but returns LV95 coordinates whatever `srsName` is sent.

use vstd::prelude::*;
use vstd::string::*;

verus! {

pub const WFS_BASE: &'static str = "https://maps.zh.ch/wfs/OGDZHWFS";

pub const TYPENAME: &'static str = "ms:ogd-0348_giszhpub_zvv_tarifzonen_f";

/// Attribute holding the zone number (110, 121, 154, ...).
pub const ZONE_FIELD: &'static str = "zone";

/// GTFS static feed for all of Switzerland, from opentransportdata.swiss.
/// The `/permalink` endpoint always redirects to the current publication.
pub const GTFS_PERMALINK: &'static str =
    "https://data.opentransportdata.swiss/en/dataset/timetable-2026-gtfs2020/permalink";

/// How much of an unexpected response is quoted.
pub const QUOTED_BYTES: usize = 200;

/// The request for all fare zones.
pub fn zones_url() -> (r: String)
    ensures
        r@ == WFS_BASE@ + "?Service=WFS&Version=2.0.0&Request=GetFeature&typeName="@ + TYPENAME@
            + "&outputFormat=application/json&srsName=EPSG:4326"@,
{
    let mut url = String::from_str(WFS_BASE);
    url.append("?Service=WFS&Version=2.0.0&Request=GetFeature&typeName=");
    url.append(TYPENAME);
    url.append("&outputFormat=application/json&srsName=EPSG:4326");
    url
}

/// A response that is no JSON object; `start` holds its first bytes.
#[derive(Debug, Clone)]
pub struct NotJson {
    pub start: Vec<u8>,
}

/// Whether a response body can be a JSON object: its first byte is `{`.
pub fn check_body(body: &[u8]) -> (r: Result<(), NotJson>)
    ensures
        r is Ok <==> body@.len() > 0 && body@[0] == 0x7b,
        r is Err ==> r->Err_0.start@ == body@.take(
            if body@.len() < QUOTED_BYTES {
                body@.len() as int
            } else {
                QUOTED_BYTES as int
            },
        ),
        r is Err ==> {
            let quoted = r->Err_0.start@;
            &&& quoted.is_prefix_of(body@)
            &&& quoted.len() <= 200
            &&& quoted.len() < 200 ==> quoted == body@
        },
{
    if body.len() > 0 && body[0] == 0x7b {
        return Ok(());
    }
    let mut start: Vec<u8> = Vec::new();
    while start.len() < body.len() && start.len() < QUOTED_BYTES
        invariant
            start@.len() <= body@.len(),
            start@.len() <= QUOTED_BYTES,
            start@ == body@.take(start@.len() as int),
        decreases body@.len() - start@.len(),
    {
        let ghost before = start@;
        start.push(body[start.len()]);
        assert(start@ =~= body@.take(before.len() as int + 1));
    }
    Err(NotJson { start })
}

} // verus!
