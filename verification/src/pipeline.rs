//! Steps of the canton build: which stations stay, how they are numbered, and
//! what is reported of the finished graph.

use crate::components::is_partition;
use crate::graph::Graph;
use crate::seqs::nested;
use crate::stations::{RawStop, Station};
use crate::text::texts;
use crate::zoneset::ZoneIndex;
use vstd::prelude::*;

verus! {

/// No stop lies in any fare zone.
#[derive(Debug, Clone, Copy, PartialEq, Eq, Structural)]
pub struct NoStops;

/// A station's zone is missing from the zone index.
#[derive(Debug, Clone, Copy, PartialEq, Eq, Structural)]
pub struct MissingZone {
    pub zone: u32,
}

/// How many of the first `k` stations lie in a fare zone.
pub open spec fn kept_count(zones: Seq<Option<u32>>, k: nat) -> nat
    decreases k,
{
    if k == 0 {
        0
    } else {
        kept_count(zones, (k - 1) as nat) + if zones[k - 1] is Some {
            1nat
        } else {
            0
        }
    }
}

/// The stations that lie in a fare zone, numbered without gaps.
pub struct Kept<C> {
    pub stations: Vec<Station<C>>,
    /// The new number of each old station, where it is kept.
    pub dense: Vec<Option<u32>>,
}

/// Whether a station is a stop together with its zone.
pub open spec fn is_station_of<C>(s: Station<C>, stop: RawStop<C>, zone: u32) -> bool {
    s.id@ == stop.id@ && s.name@ == stop.name@ && s.lon == stop.lon && s.lat == stop.lat
        && s.zone_id == zone
}

/// Whether `kept` holds exactly the stations with a zone, in their order.
pub open spec fn keeps_zoned<C>(
    raw: Seq<RawStop<C>>,
    zones: Seq<Option<u32>>,
    kept: Kept<C>,
) -> bool {
    &&& kept.stations@.len() == kept_count(zones, zones.len())
    &&& kept.dense@.len() == zones.len()
    &&& forall|i: int|
        #![trigger zones[i]]
        0 <= i < zones.len() ==> match zones[i] {
            Some(zone) => {
                &&& kept.dense@[i] == Some(kept_count(zones, i as nat) as u32)
                &&& kept_count(zones, i as nat) < kept.stations@.len()
                &&& is_station_of(kept.stations@[kept_count(zones, i as nat) as int], raw[i], zone)
            },
            None => kept.dense@[i] is None,
        }
}

/// Keeps the stations that lie in a fare zone. `zones` holds the zone of each.
pub fn keep_stations<C: Copy>(raw: &Vec<RawStop<C>>, zones: &Vec<Option<u32>>) -> (r: Result<
    Kept<C>,
    NoStops,
>)
    requires
        raw@.len() == zones@.len(),
        zones@.len() <= u32::MAX,
    ensures
        r is Err <==> forall|i: int| 0 <= i < zones@.len() ==> (#[trigger] zones@[i]) is None,
        r is Ok ==> keeps_zoned(raw@, zones@, r->Ok_0),
{
    let mut stations: Vec<Station<C>> = Vec::new();
    let mut dense: Vec<Option<u32>> = Vec::new();
    let mut i: usize = 0;
    while i < zones.len()
        invariant
            raw@.len() == zones@.len(),
            zones@.len() <= u32::MAX,
            i <= zones@.len(),
            stations@.len() == kept_count(zones@, i as nat),
            stations@.len() <= i,
            dense@.len() == i,
            forall|k: int|
                #![trigger zones@[k]]
                0 <= k < i ==> match zones@[k] {
                    Some(zone) => {
                        &&& dense@[k] == Some(kept_count(zones@, k as nat) as u32)
                        &&& kept_count(zones@, k as nat) < stations@.len()
                        &&& is_station_of(
                            stations@[kept_count(zones@, k as nat) as int],
                            raw@[k],
                            zone,
                        )
                    },
                    None => dense@[k] is None,
                },
            stations@.len() == 0 ==> forall|k: int| 0 <= k < i ==> (#[trigger] zones@[k]) is None,
        decreases zones@.len() - i,
    {
        match zones[i] {
            Some(zone) => {
                dense.push(Some(stations.len() as u32));
                let stop = &raw[i];
                stations.push(
                    Station {
                        id: stop.id.clone(),
                        name: stop.name.clone(),
                        lon: stop.lon,
                        lat: stop.lat,
                        zone_id: zone,
                    },
                );
            },
            None => {
                dense.push(None);
            },
        }
        i = i + 1;
    }
    if stations.len() == 0 {
        return Err(NoStops);
    }
    proof {
        if forall|k: int| 0 <= k < zones@.len() ==> (#[trigger] zones@[k]) is None {
            lemma_none_kept(zones@, zones@.len());
        }
    }
    Ok(Kept { stations, dense })
}

proof fn lemma_none_kept(zones: Seq<Option<u32>>, k: nat)
    requires
        k <= zones.len(),
        forall|i: int| 0 <= i < zones.len() ==> (#[trigger] zones[i]) is None,
    ensures
        kept_count(zones, k) == 0,
    decreases k,
{
    if k > 0 {
        lemma_none_kept(zones, (k - 1) as nat);
    }
}

/// Different stations keep different numbers, in their old order.
pub proof fn law_numbering_keeps_order(zones: Seq<Option<u32>>, i: int, j: int)
    requires
        0 <= i < j < zones.len(),
        zones[i] is Some,
    ensures
        kept_count(zones, i as nat) < kept_count(zones, j as nat),
    decreases j,
{
    if i + 1 < j {
        law_numbering_keeps_order(zones, i, j - 1);
    }
}

/// The zone bit-index of every station; names the first zone that is missing.
pub fn node_zone_bits<C>(stations: &Vec<Station<C>>, index: &ZoneIndex) -> (r: Result<
    Vec<u8>,
    MissingZone,
>)
    ensures
        match r {
            Ok(bits) => {
                &&& bits@.len() == stations@.len()
                &&& forall|i: int|
                    0 <= i < bits@.len() ==> {
                        &&& #[trigger] bits@[i] < index@.len()
                        &&& bits@[i] < 64
                        &&& index@[bits@[i] as int] == stations@[i].zone_id
                    }
            },
            Err(e) => exists|i: int|
                {
                    &&& 0 <= i < stations@.len()
                    &&& (#[trigger] stations@[i]).zone_id == e.zone
                    &&& !index@.contains(e.zone)
                    &&& forall|j: int|
                        0 <= j < i ==> index@.contains((#[trigger] stations@[j]).zone_id)
                },
        },
{
    let mut bits: Vec<u8> = Vec::new();
    let mut i: usize = 0;
    while i < stations.len()
        invariant
            i <= stations@.len(),
            bits@.len() == i,
            forall|k: int|
                0 <= k < i ==> {
                    &&& #[trigger] bits@[k] < index@.len()
                    &&& bits@[k] < 64
                    &&& index@[bits@[k] as int] == stations@[k].zone_id
                },
        decreases stations@.len() - i,
    {
        let zone: u32 = stations[i].zone_id;
        match index.index_of(zone) {
            Some(bit) => {
                bits.push(bit);
            },
            None => {
                proof {
                    assert(stations@[i as int].zone_id == zone);
                    assert forall|j: int| 0 <= j < i implies index@.contains(
                        (#[trigger] stations@[j]).zone_id,
                    ) by {
                        assert(index@[bits@[j] as int] == stations@[j].zone_id);
                    }
                }
                return Err(MissingZone { zone });
            },
        }
        i = i + 1;
    }
    Ok(bits)
}

/// The new number of an old station, where it is kept.
pub open spec fn renumbered(dense: Seq<Option<u32>>, old: u32) -> Option<u32> {
    if old < dense.len() {
        dense[old as int]
    } else {
        None
    }
}

/// The pairs both of whose stations are kept, with their new numbers.
pub open spec fn renumbered_pairs(dense: Seq<Option<u32>>, pairs: Seq<(u32, u32)>) -> Seq<
    (u32, u32),
>
    decreases pairs.len(),
{
    if pairs.len() == 0 {
        Seq::empty()
    } else {
        let rest = renumbered_pairs(dense, pairs.drop_last());
        match (renumbered(dense, pairs.last().0), renumbered(dense, pairs.last().1)) {
            (Some(u), Some(v)) => rest.push((u, v)),
            _ => rest,
        }
    }
}

/// Looks up the new number of an old station.
pub(crate) fn new_number(dense: &Vec<Option<u32>>, old: u32) -> (r: Option<u32>)
    ensures
        r == renumbered(dense@, old),
{
    if (old as usize) < dense.len() {
        dense[old as usize]
    } else {
        None
    }
}

/// Renumbers station pairs; one with a station that is not kept is left out.
pub fn renumber_pairs(dense: &Vec<Option<u32>>, pairs: &Vec<(u32, u32)>) -> (r: Vec<(u32, u32)>)
    ensures
        r@ == renumbered_pairs(dense@, pairs@),
{
    let mut out: Vec<(u32, u32)> = Vec::new();
    let mut i: usize = 0;
    while i < pairs.len()
        invariant
            i <= pairs@.len(),
            out@ == renumbered_pairs(dense@, pairs@.take(i as int)),
        decreases pairs@.len() - i,
    {
        assert(pairs@.take(i + 1).drop_last() =~= pairs@.take(i as int));
        let (a, b) = pairs[i];
        if let (Some(u), Some(v)) = (new_number(dense, a), new_number(dense, b)) {
            out.push((u, v));
        }
        i = i + 1;
    }
    assert(pairs@.take(i as int) =~= pairs@);
    out
}

// ---------------------------------------------------------- connectivity

/// How many components are listed, and how many of each one's stations.
pub const LISTED_COMPONENTS: usize = 15;

pub const LISTED_MEMBERS: usize = 4;

/// One component as it is reported.
#[derive(Debug)]
pub struct ComponentReport {
    pub size: usize,
    /// The names of its first stations.
    pub members: Vec<String>,
}

/// What is reported of a graph's connectivity.
#[derive(Debug)]
pub enum Connectivity {
    Connected,
    Split {
        components: usize,
        /// Stations in the largest component.
        largest: usize,
        /// Stations outside it.
        stranded: usize,
        /// The largest components.
        listed: Vec<ComponentReport>,
        /// Components that are not listed.
        remaining: usize,
    },
}

/// The smaller of two numbers.
pub open spec fn at_most(n: nat, limit: usize) -> nat {
    if n < limit {
        n
    } else {
        limit as nat
    }
}

/// The names of the first stations of a component.
pub open spec fn member_names<C>(stations: Seq<Station<C>>, comp: Seq<u32>) -> Seq<Seq<char>> {
    Seq::new(at_most(comp.len(), LISTED_MEMBERS), |i: int| stations[comp[i] as int].name@)
}

/// Whether a report is one of these components.
pub open spec fn reports_split<C>(
    stations: Seq<Station<C>>,
    size: nat,
    comps: Seq<Seq<u32>>,
    report: Connectivity,
) -> bool {
    match report {
        Connectivity::Connected => comps.len() == 1,
        Connectivity::Split { components, largest, stranded, listed, remaining } => {
            &&& comps.len() > 1
            &&& components == comps.len()
            &&& largest == comps[0].len()
            &&& stranded == size - comps[0].len()
            &&& listed@.len() == at_most(comps.len(), LISTED_COMPONENTS)
            &&& forall|c: int|
                0 <= c < listed@.len() ==> {
                    &&& (#[trigger] listed@[c]).size == comps[c].len()
                    &&& texts(listed@[c].members@) == member_names(stations, comps[c])
                }
            &&& remaining == comps.len() - listed@.len()
        },
    }
}

/// The graph should be connected. If it is not, the components are reported with
/// their sizes and first member stations: that is a data problem worth seeing,
/// not something to silently paper over.
pub fn report_connectivity<C>(graph: &Graph, stations: &Vec<Station<C>>) -> (r: Connectivity)
    requires
        graph@.size() > 0,
        stations@.len() >= graph@.size(),
    ensures
        exists|comps: Seq<Seq<u32>>| #[trigger]
            is_partition(graph@, comps) && reports_split(stations@, graph@.size(), comps, r),
{
    let comps = graph.components();
    let n: usize = graph.node_count();
    let ghost all = nested(comps@);
    proof {
        assert(crate::components::covered(all, 0));
        assert(all.len() > 0);
        assert(all[0] == comps@[0]@);
        assert(crate::components::is_component(graph@, all[0]));
        crate::seqs::lemma_distinct_bounded(all[0], n as nat);
    }
    if comps.len() == 1 {
        return Connectivity::Connected;
    }
    let largest: usize = comps[0].len();
    let mut listed: Vec<ComponentReport> = Vec::new();
    while listed.len() < comps.len() && listed.len() < LISTED_COMPONENTS
        invariant
            all == nested(comps@),
            is_partition(graph@, all),
            stations@.len() >= graph@.size(),
            listed@.len() <= comps@.len(),
            listed@.len() <= LISTED_COMPONENTS,
            forall|c: int|
                0 <= c < listed@.len() ==> {
                    &&& (#[trigger] listed@[c]).size == all[c].len()
                    &&& texts(listed@[c].members@) == member_names(stations@, all[c])
                },
        decreases comps@.len() - listed@.len(),
    {
        let c: usize = listed.len();
        let comp = &comps[c];
        assert(all[c as int] == comp@);
        assert(crate::components::is_component(graph@, all[c as int]));
        let mut members: Vec<String> = Vec::new();
        while members.len() < comp.len() && members.len() < LISTED_MEMBERS
            invariant
                members@.len() <= comp@.len(),
                members@.len() <= LISTED_MEMBERS,
                forall|i: int| 0 <= i < comp@.len() ==> #[trigger] comp@[i] < stations@.len(),
                forall|i: int|
                    0 <= i < members@.len() ==> (#[trigger] members@[i])@
                        == stations@[comp@[i] as int].name@,
            decreases comp@.len() - members@.len(),
        {
            let node: u32 = comp[members.len()];
            members.push(stations[node as usize].name.clone());
        }
        assert(texts(members@) =~= member_names(stations@, comp@));
        listed.push(ComponentReport { size: comp.len(), members });
    }
    let remaining: usize = comps.len() - listed.len();
    let r = Connectivity::Split {
        components: comps.len(),
        largest,
        stranded: n - largest,
        listed,
        remaining,
    };
    assert(reports_split(stations@, graph@.size(), all, r));
    r
}

// ------------------------------------------------------- what is kept and told

/// A station's number is how many stations before it lie in a zone.
pub proof fn law_numbers_count_the_zoned_stops(zones: Seq<Option<u32>>, k: nat)
    requires
        k <= zones.len(),
    ensures
        kept_count(zones, k) == zones.take(k as int).filter(|z: Option<u32>| z is Some).len(),
    decreases k,
{
    reveal(Seq::filter);
    if k > 0 {
        law_numbers_count_the_zoned_stops(zones, (k - 1) as nat);
        assert(zones.take(k as int).drop_last() =~= zones.take(k - 1));
    }
}

/// A kept station has the id, name and place of its stop and the zone it lies in.
pub proof fn law_a_kept_station_is_its_stop<C>(
    raw: Seq<RawStop<C>>,
    zones: Seq<Option<u32>>,
    kept: Kept<C>,
    i: int,
)
    requires
        keeps_zoned(raw, zones, kept),
        zones.len() <= u32::MAX,
        0 <= i < zones.len(),
    ensures
        kept.dense@.len() == zones.len(),
        kept.dense@[i] is Some <==> zones[i] is Some,
        zones[i] is Some ==> {
            let s = kept.stations@[kept.dense@[i]->0 as int];
            &&& kept.dense@[i]->0 < kept.stations@.len()
            &&& s.id@ == raw[i].id@
            &&& s.name@ == raw[i].name@
            &&& s.lon == raw[i].lon
            &&& s.lat == raw[i].lat
            &&& Some(s.zone_id) == zones[i]
        },
{
    lemma_kept_at_most(zones, i as nat);
    assert(match zones[i] {
        Some(zone) => kept.dense@[i] == Some(kept_count(zones, i as nat) as u32),
        None => true,
    });
}

proof fn lemma_kept_at_most(zones: Seq<Option<u32>>, k: nat)
    ensures
        kept_count(zones, k) <= k,
    decreases k,
{
    if k > 0 {
        lemma_kept_at_most(zones, (k - 1) as nat);
    }
}

/// Pairs are renumbered one by one; one with a station that is not kept is left out.
pub proof fn law_pairs_are_renumbered_one_by_one(
    dense: Seq<Option<u32>>,
    pairs: Seq<(u32, u32)>,
)
    ensures
        renumbered_pairs(dense, pairs) == pairs.filter_map(
            |p: (u32, u32)|
                if p.0 < dense.len() && p.1 < dense.len() && dense[p.0 as int] is Some
                    && dense[p.1 as int] is Some {
                    Some((dense[p.0 as int]->0, dense[p.1 as int]->0))
                } else {
                    None
                },
        ),
    decreases pairs.len(),
{
    if pairs.len() > 0 {
        law_pairs_are_renumbered_one_by_one(dense, pairs.drop_last());
        assert(renumbered_pairs(dense, pairs) =~= pairs.filter_map(
            |p: (u32, u32)|
                if p.0 < dense.len() && p.1 < dense.len() && dense[p.0 as int] is Some
                    && dense[p.1 as int] is Some {
                    Some((dense[p.0 as int]->0, dense[p.1 as int]->0))
                } else {
                    None
                },
        ));
    }
}

/// What is told of a graph that falls apart: how many parts it has, how large the
/// first is and how many stations lie outside it, and of the first fifteen parts their
/// sizes and the names of their first four stations.
pub proof fn law_a_split_is_told_in_full<C>(
    stations: Seq<Station<C>>,
    size: nat,
    comps: Seq<Seq<u32>>,
    report: Connectivity,
)
    requires
        reports_split(stations, size, comps, report),
    ensures
        report is Connected <==> comps.len() == 1,
        report is Split ==> {
            &&& report->components == comps.len()
            &&& report->components > 1
            &&& report->largest == comps[0].len()
            &&& report->largest + report->stranded == size
            &&& report->listed@.len() + report->remaining == comps.len()
            &&& report->listed@.len() == if comps.len() < 15 {
                comps.len()
            } else {
                15
            }
            &&& forall|c: int|
                0 <= c < report->listed@.len() ==> {
                    &&& (#[trigger] report->listed@[c]).size == comps[c].len()
                    &&& report->listed@[c].members@.len() == if comps[c].len() < 4 {
                        comps[c].len()
                    } else {
                        4
                    }
                    &&& forall|i: int|
                        0 <= i < report->listed@[c].members@.len()
                            ==> (#[trigger] report->listed@[c].members@[i])@
                            == stations[comps[c][i] as int].name@
                }
        },
{
    if let Connectivity::Split { components, largest, stranded, listed, remaining } = report {
        assert forall|c: int| 0 <= c < listed@.len() implies {
            &&& (#[trigger] listed@[c]).size == comps[c].len()
            &&& listed@[c].members@.len() == if comps[c].len() < 4 {
                comps[c].len()
            } else {
                4
            }
            &&& forall|i: int|
                0 <= i < listed@[c].members@.len() ==> (#[trigger] listed@[c].members@[i])@
                    == stations[comps[c][i] as int].name@
        } by {
            let names = texts(listed@[c].members@);
            assert(names == member_names(stations, comps[c]));
            assert(names.len() == listed@[c].members@.len());
            assert forall|i: int| 0 <= i < listed@[c].members@.len() implies (
            #[trigger] listed@[c].members@[i])@ == stations[comps[c][i] as int].name@ by {
                assert(names[i] == listed@[c].members@[i]@);
            }
        }
    }
}

/// As many stations are kept as there are stops with a zone.
pub proof fn law_every_zoned_stop_is_kept_once<C>(
    raw: Seq<RawStop<C>>,
    zones: Seq<Option<u32>>,
    kept: Kept<C>,
)
    requires
        keeps_zoned(raw, zones, kept),
    ensures
        kept.stations@.len() == zones.filter(|z: Option<u32>| z is Some).len(),
{
    law_numbers_count_the_zoned_stops(zones, zones.len());
    assert(zones.take(zones.len() as int) =~= zones);
}

} // verus!
