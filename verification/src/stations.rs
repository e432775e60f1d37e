//! GTFS stops to stations: parent collapsing, zone assignment, edge extraction.
//!
//! Coordinates are only carried along, so every type here leaves open what they
//! are. `stop_times` rows come one at a time: the feed is far too large to hold.

use crate::sorting::{
    is_order, law_sorted_items_rank_in_order, law_sorting_forgets_order, lemma_order_complete,
    lemma_order_exists, never_falls, sort_order, sorted, sorted_numbers, taken, Ranked,
};
use crate::bits::{has_bit, lemma_bit_or, lemma_bit_single, lemma_no_bits};
use crate::text::{
    before, lemma_text_order, parse_u32, parsed_u32, same, text_lt, trim, trim_start_char, trimmed,
    without_leading,
};
use crate::zoneset::{zone_numbers_valid, ZoneIndex};
use std::collections::HashSet;
use vstd::hash_map::StringHashMap;
use vstd::multiset::Multiset;
use vstd::prelude::*;

verus! {

broadcast use vstd::std_specs::hash::group_hash_axioms;

/// A station of the map.
#[derive(Debug, Clone)]
pub struct Station<C> {
    pub id: String,
    pub name: String,
    pub lon: C,
    pub lat: C,
    /// Fare zone number this station sits in.
    pub zone_id: u32,
}

/// A GTFS stop reduced to what is needed, after parent collapsing.
#[derive(Debug, Clone)]
pub struct RawStop<C> {
    pub id: String,
    pub name: String,
    pub lon: C,
    pub lat: C,
}

/// A stop as the feed has it.
#[derive(Debug, Clone)]
pub struct FeedStop<C> {
    pub id: String,
    pub name: Option<String>,
    /// Longitude and latitude, where the feed gives both.
    pub place: Option<(C, C)>,
    pub parent: Option<String>,
}

/// What a [`RawStop`] holds.
pub struct StopModel<C> {
    pub id: Seq<char>,
    pub name: Seq<char>,
    pub lon: C,
    pub lat: C,
}

impl<C> View for RawStop<C> {
    type V = StopModel<C>;

    open spec fn view(&self) -> StopModel<C> {
        StopModel { id: self.id@, name: self.name@, lon: self.lon, lat: self.lat }
    }
}

/// The contents of a list of stations.
pub open spec fn stop_models<C>(v: Seq<RawStop<C>>) -> Seq<StopModel<C>> {
    Seq::new(v.len(), |i: int| v[i]@)
}

/// Stops are walked by id, so that a rebuild from the same feed numbers the
/// stations the same way whatever order the feed's stops come in.
impl<C> Ranked for FeedStop<C> {
    open spec fn ranks_before(&self, other: &FeedStop<C>) -> bool {
        text_lt(self.id@, other.id@)
    }

    proof fn lemma_ranking(a: &FeedStop<C>, b: &FeedStop<C>, c: &FeedStop<C>) {
        lemma_text_order(a.id@, b.id@, c.id@);
        lemma_text_order(c.id@, b.id@, a.id@);
    }

    fn is_before(&self, other: &FeedStop<C>) -> bool {
        before(self.id.as_str(), other.id.as_str())
    }
}

/// How far collapsing has got: the stations, the station every stop id belongs
/// to, and how many stops named a parent that is missing.
pub struct Collapse<C> {
    pub stations: Seq<StopModel<C>>,
    pub index: Map<Seq<char>, usize>,
    pub orphans: nat,
}

/// What a station made of a stop holds.
pub open spec fn station_of<C>(stop: FeedStop<C>) -> StopModel<C> {
    let place = stop.place->0;
    StopModel {
        id: stop.id@,
        name: match stop.name {
            Some(name) => name@,
            None => Seq::empty(),
        },
        lon: place.0,
        lat: place.1,
    }
}

/// The stop becomes a station of its own.
pub open spec fn on_its_own<C>(c: Collapse<C>, stop: FeedStop<C>) -> Collapse<C> {
    Collapse {
        stations: c.stations.push(station_of(stop)),
        index: c.index.insert(stop.id@, c.stations.len() as usize),
        orphans: c.orphans,
    }
}

/// Every one of the first `k` stops without a parent becomes a station, if it
/// has a place.
pub open spec fn parents<C>(stops: Seq<FeedStop<C>>, k: nat) -> Collapse<C>
    decreases k,
{
    if k == 0 {
        Collapse { stations: Seq::empty(), index: Map::empty(), orphans: 0 }
    } else {
        let c = parents(stops, (k - 1) as nat);
        let stop = stops[k - 1];
        if stop.parent is None && stop.place is Some {
            on_its_own(c, stop)
        } else {
            c
        }
    }
}

/// Every one of the first `k` stops with a parent goes to its parent's station.
/// One whose parent is missing from the feed becomes a station of its own rather
/// than vanishing, if it has a place.
pub open spec fn with_children<C>(stops: Seq<FeedStop<C>>, k: nat) -> Collapse<C>
    decreases k,
{
    if k == 0 {
        parents(stops, stops.len())
    } else {
        let c = with_children(stops, (k - 1) as nat);
        let stop = stops[k - 1];
        if stop.parent is None {
            c
        } else if c.index.dom().contains(stop.parent->0@) {
            Collapse {
                stations: c.stations,
                index: c.index.insert(stop.id@, c.index[stop.parent->0@]),
                orphans: c.orphans,
            }
        } else if stop.place is Some {
            let own = on_its_own(c, stop);
            Collapse { stations: own.stations, index: own.index, orphans: c.orphans + 1 }
        } else {
            c
        }
    }
}

/// The stations that a feed's stops collapse onto.
pub open spec fn collapsed<C>(stops: Seq<FeedStop<C>>) -> Collapse<C> {
    with_children(sorted(stops), stops.len())
}

/// Which station every stop id belongs to.
pub struct StopIndex {
    map: StringHashMap<usize>,
}

impl View for StopIndex {
    type V = Map<Seq<char>, usize>;

    closed spec fn view(&self) -> Map<Seq<char>, usize> {
        self.map@
    }
}

impl StopIndex {
    pub fn new() -> (r: StopIndex)
        ensures
            r@ == Map::<Seq<char>, usize>::empty(),
    {
        StopIndex { map: StringHashMap::new() }
    }

    /// Notes the station of a stop id, in place of any noted before.
    pub fn insert(&mut self, id: String, station: usize)
        ensures
            final(self)@ == old(self)@.insert(id@, station),
    {
        self.map.insert(id, station);
    }

    /// The station of a stop id.
    pub fn get(&self, id: &str) -> (r: Option<usize>)
        ensures
            match r {
                Some(station) => self@.dom().contains(id@) && station == self@[id@],
                None => !self@.dom().contains(id@),
            },
    {
        match self.map.get(id) {
            Some(at) => {
                let station: usize = *at;
                Some(station)
            },
            None => None,
        }
    }
}

/// What collapsing a feed's stops gives.
pub struct Collapsed<C> {
    pub stations: Vec<RawStop<C>>,
    /// The station of a stop id, children included. A stop that has no place and no
    /// parent that is itself indexed has none.
    pub index: StopIndex,
    /// Child stops whose parent is absent from the feed.
    pub orphans: usize,
}

fn raw_stop<C: Copy>(stop: &FeedStop<C>, place: (C, C)) -> (r: RawStop<C>)
    requires
        stop.place == Some(place),
    ensures
        r@ == station_of(*stop),
{
    let name = match &stop.name {
        Some(name) => name.clone(),
        None => String::new(),
    };
    RawStop { id: stop.id.clone(), name, lon: place.0, lat: place.1 }
}

/// Collapse child stops onto their parent stations.
///
/// Returns the station list plus the station of every stop id, so `stop_times`
/// rows can be resolved without a second lookup table.
pub fn collapse_stops<C: Copy>(stops: &Vec<FeedStop<C>>) -> (r: Collapsed<C>)
    ensures
        stop_models(r.stations@) == collapsed(stops@).stations,
        r.index@ == collapsed(stops@).index,
        r.orphans == collapsed(stops@).orphans,
{
    let order = sort_order(stops);
    let ghost walked = sorted(stops@);
    let n: usize = order.len();
    let mut stations: Vec<RawStop<C>> = Vec::new();
    let mut index = StopIndex::new();
    let mut orphans: usize = 0;
    assert(stop_models(stations@) =~= Seq::empty());

    // First pass: every stop that is its own station.
    let mut k: usize = 0;
    while k < n
        invariant
            n == order@.len() == stops@.len(),
            is_order(stops@, order@),
            walked == taken(stops@, order@),
            k <= n,
            stop_models(stations@) == parents(walked, k as nat).stations,
            index@ == parents(walked, k as nat).index,
            parents(walked, k as nat).orphans == 0,
        decreases n - k,
    {
        let stop = &stops[order[k]];
        assert(walked[k as int] == *stop);
        let ghost models = stop_models(stations@);
        if stop.parent.is_none() {
            if let Some(place) = stop.place {
                index.insert(stop.id.clone(), stations.len());
                stations.push(raw_stop(stop, place));
                assert(stop_models(stations@) =~= models.push(station_of(*stop)));
            }
        }
        k = k + 1;
    }

    // Second pass: map children onto their parent's index.
    k = 0;
    while k < n
        invariant
            n == order@.len() == stops@.len(),
            is_order(stops@, order@),
            walked == taken(stops@, order@),
            k <= n,
            orphans <= k,
            stop_models(stations@) == with_children(walked, k as nat).stations,
            index@ == with_children(walked, k as nat).index,
            orphans == with_children(walked, k as nat).orphans,
        decreases n - k,
    {
        let stop = &stops[order[k]];
        assert(walked[k as int] == *stop);
        let ghost models = stop_models(stations@);
        if let Some(parent) = &stop.parent {
            match index.get(parent.as_str()) {
                Some(station) => {
                    index.insert(stop.id.clone(), station);
                },
                None => {
                    if let Some(place) = stop.place {
                        orphans = orphans + 1;
                        index.insert(stop.id.clone(), stations.len());
                        stations.push(raw_stop(stop, place));
                        assert(stop_models(stations@) =~= models.push(station_of(*stop)));
                    }
                },
            }
        }
        k = k + 1;
    }
    Collapsed { stations, index, orphans }
}

/// A rebuild from the same feed is identical: the order in which the stops of a
/// feed are handed over does not change the stations, their numbers or the
/// index. Stop ids are distinct.
pub proof fn law_collapse_ignores_feed_order<C>(a: Seq<FeedStop<C>>, b: Seq<FeedStop<C>>)
    requires
        a.len() <= usize::MAX,
        a.to_multiset() == b.to_multiset(),
        forall|i: int, j: int|
            #![trigger a[i], a[j]]
            0 <= i < j < a.len() ==> a[i].id@ != a[j].id@,
    ensures
        collapsed(a) == collapsed(b),
{
    broadcast use vstd::seq_lib::group_to_multiset_ensures;

    assert forall|i: int, j: int|
        #![trigger a[i], a[j]]
        0 <= i < a.len() && 0 <= j < a.len() && i != j implies a[i].ranks_before(&a[j])
        || a[j].ranks_before(&a[i]) by {
        lemma_text_order(a[i].id@, a[j].id@, a[i].id@);
        if i < j {
            assert(a[i].id@ != a[j].id@);
        } else {
            assert(a[j].id@ != a[i].id@);
        }
    }
    law_sorting_forgets_order(a, b);
    assert(a.len() == a.to_multiset().len());
    assert(b.len() == b.to_multiset().len());
}

proof fn lemma_parents_indexed<C>(stops: Seq<FeedStop<C>>, k: nat)
    requires
        k <= stops.len() <= usize::MAX,
    ensures
        parents(stops, k).stations.len() <= k,
        forall|id: Seq<char>| #[trigger]
            parents(stops, k).index.dom().contains(id) ==> parents(stops, k).index[id]
                < parents(stops, k).stations.len(),
    decreases k,
{
    if k > 0 {
        lemma_parents_indexed(stops, (k - 1) as nat);
    }
}

proof fn lemma_children_indexed<C>(stops: Seq<FeedStop<C>>, k: nat)
    requires
        k <= stops.len(),
        2 * stops.len() <= usize::MAX,
    ensures
        with_children(stops, k).stations.len() <= stops.len() + k,
        forall|id: Seq<char>| #[trigger]
            with_children(stops, k).index.dom().contains(id) ==> with_children(stops, k).index[id]
                < with_children(stops, k).stations.len(),
    decreases k,
{
    if k == 0 {
        lemma_parents_indexed(stops, stops.len());
    } else {
        lemma_children_indexed(stops, (k - 1) as nat);
    }
}

/// Whatever stop id is looked up, the station found is one of the list.
pub proof fn law_index_stays_in_list<C>(stops: Seq<FeedStop<C>>, id: Seq<char>)
    requires
        2 * stops.len() <= usize::MAX,
        collapsed(stops).index.dom().contains(id),
    ensures
        collapsed(stops).index[id] < collapsed(stops).stations.len(),
{
    let order = lemma_order_exists(stops);
    let pick = choose|order: Seq<usize>| is_order(stops, order);
    assert(is_order(stops, pick));
    assert(sorted(stops).len() == stops.len());
    lemma_children_indexed(sorted(stops), stops.len());
}

// ---------------------------------------------------------- timetable rows

/// What a `stop_times` row says, once looked up.
pub struct TripRow {
    pub trip: Seq<char>,
    /// The sequence number, where it can be read.
    pub seq: Option<u32>,
    /// The station, where the stop belongs to one that is kept.
    pub node: Option<u32>,
}

/// Whether a station is kept: it lies in some fare zone.
pub open spec fn is_kept(zones: Seq<Option<u32>>, station: usize) -> bool {
    station < zones.len() && zones[station as int] is Some
}

/// What a row says under a stop index and the stations' zones.
pub open spec fn row_of(
    trip: Seq<char>,
    stop: Seq<char>,
    seq: Seq<char>,
    index: Map<Seq<char>, usize>,
    zones: Seq<Option<u32>>,
) -> TripRow {
    TripRow {
        trip,
        seq: parsed_u32(trimmed(seq)),
        node: if index.dom().contains(stop) && is_kept(zones, index[stop]) {
            Some(index[stop] as u32)
        } else {
            None
        },
    }
}

/// How far a stream of rows has got: the trip being read, the sequence number and
/// station of its last readable row, and the station pairs found.
pub struct StreamModel {
    pub trip: Option<Seq<char>>,
    pub prev: Option<(u32, u32)>,
    pub edges: Set<(u32, u32)>,
}

/// The two stations of an edge, the smaller one first.
pub open spec fn edge_between(a: u32, b: u32) -> (u32, u32) {
    if a < b {
        (a, b)
    } else {
        (b, a)
    }
}

/// The stream one row further.
pub open spec fn after_row(m: StreamModel, row: TripRow) -> StreamModel {
    let prev = if m.trip == Some(row.trip) {
        m.prev
    } else {
        None
    };
    match row.seq {
        None => StreamModel { trip: Some(row.trip), prev, edges: m.edges },
        Some(seq) => StreamModel {
            trip: Some(row.trip),
            prev: match row.node {
                Some(node) => Some((seq, node)),
                None => None,
            },
            edges: match (prev, row.node) {
                (Some((last, from)), Some(to)) => if seq == last + 1 && from != to {
                    m.edges.insert(edge_between(from, to))
                } else {
                    m.edges
                },
                _ => m.edges,
            },
        },
    }
}

/// The stream after all of these rows.
pub open spec fn streamed(rows: Seq<TripRow>) -> StreamModel
    decreases rows.len(),
{
    if rows.len() == 0 {
        StreamModel { trip: None, prev: None, edges: Set::empty() }
    } else {
        after_row(streamed(rows.drop_last()), rows.last())
    }
}

/// Collects deduplicated consecutive station pairs out of `stop_times` rows.
///
/// Only rows whose stop resolves to a kept station produce edges. When a trip
/// passes through a dropped stop it is not bridged: joining the stops either side
/// would invent a direct connection that no service offers.
pub struct EdgeStream {
    trip: Option<String>,
    prev: Option<(u32, u32)>,
    seen: HashSet<u64>,
    codes: Vec<u64>,
}

/// An edge as one number, ordered as the pair is.
pub open spec fn edge_code(edge: (u32, u32)) -> u64 {
    (edge.0 * 0x1_0000_0000 + edge.1) as u64
}

/// The edge that a number stands for.
pub open spec fn code_edge(code: u64) -> (u32, u32) {
    ((code / 0x1_0000_0000) as u32, (code % 0x1_0000_0000) as u32)
}

impl View for EdgeStream {
    type V = StreamModel;

    closed spec fn view(&self) -> StreamModel {
        StreamModel {
            trip: match self.trip {
                Some(trip) => Some(trip@),
                None => None,
            },
            prev: self.prev,
            edges: Set::new(|edge: (u32, u32)| self.seen@.contains(edge_code(edge))),
        }
    }
}

/// Whether pairs come in increasing order, none twice.
pub open spec fn pairs_increase(s: Seq<(u32, u32)>) -> bool {
    forall|i: int, j: int|
        #![trigger s[i], s[j]]
        0 <= i < j < s.len() ==> s[i].0 < s[j].0 || (s[i].0 == s[j].0 && s[i].1 < s[j].1)
}

impl EdgeStream {
    /// The list and the set hold the same edges, none twice.
    pub closed spec fn wf(&self) -> bool {
        &&& self.codes@.no_duplicates()
        &&& forall|code: u64| #[trigger] self.seen@.contains(code) <==> self.codes@.contains(code)
    }

    pub fn new() -> (r: EdgeStream)
        ensures
            r.wf(),
            r@ == streamed(Seq::empty()),
    {
        let r = EdgeStream { trip: None, prev: None, seen: HashSet::new(), codes: Vec::new() };
        assert(r@.edges =~= Set::empty());
        r
    }

    /// Takes in one row.
    pub fn row(
        &mut self,
        trip: &str,
        stop: &str,
        seq: &str,
        index: &StopIndex,
        zones: &Vec<Option<u32>>,
    )
        requires
            old(self).wf(),
            zones@.len() <= u32::MAX,
        ensures
            final(self).wf(),
            final(self)@ == after_row(old(self)@, row_of(trip@, stop@, seq@, index@, zones@)),
    {
        let ghost before = self@;
        let ghost row = row_of(trip@, stop@, seq@, index@, zones@);
        let same_trip = match &self.trip {
            Some(current) => same(current.as_str(), trip),
            None => false,
        };
        if !same_trip {
            self.trip = Some(trip.to_owned());
            self.prev = None;
        }
        assert(self@.edges =~= before.edges);
        let number: u32 = match parse_u32(trim(seq)) {
            Some(number) => number,
            None => {
                return ;
            },
        };
        let node: Option<u32> = match index.get(stop) {
            Some(station) => if station < zones.len() && zones[station].is_some() {
                Some(station as u32)
            } else {
                None
            },
            None => None,
        };
        assert(node == row.node);
        // Only consecutive stop_sequence values form an edge; a gap means that a
        // stop was skipped and must not be bridged.
        if let (Some((last, from)), Some(to)) = (self.prev, node) {
            if last < u32::MAX && number == last + 1 && from != to {
                self.note(from, to);
            }
        }
        // A dropped stop clears `prev`, so nothing can bridge across it.
        self.prev = match node {
            Some(n) => Some((number, n)),
            None => None,
        };
        assert(self@.edges =~= after_row(before, row).edges);
    }

    /// Notes the edge between two stations.
    fn note(&mut self, a: u32, b: u32)
        requires
            old(self).wf(),
        ensures
            final(self).wf(),
            final(self).trip == old(self).trip,
            final(self).prev == old(self).prev,
            final(self)@.edges == old(self)@.edges.insert(edge_between(a, b)),
    {
        let ghost edge = edge_between(a, b);
        let code: u64 = if a < b {
            a as u64 * 0x1_0000_0000 + b as u64
        } else {
            b as u64 * 0x1_0000_0000 + a as u64
        };
        let ghost codes = self.codes@;
        assert(code == edge_code(edge));
        if !self.seen.contains(&code) {
            self.seen.insert(code);
            self.codes.push(code);
            proof {
                assert forall|c: u64| #[trigger] self.codes@.contains(c) <==> codes.contains(c) || c
                    == code by {
                    if codes.contains(c) {
                        let i = choose|i: int| 0 <= i < codes.len() && codes[i] == c;
                        assert(self.codes@[i] == c);
                    }
                    if c == code {
                        assert(self.codes@[codes.len() as int] == c);
                    }
                }
            }
        }
        proof {
            assert forall|e: (u32, u32)| #[trigger] self@.edges.contains(e) <==> old(
                self,
            )@.edges.insert(edge).contains(e) by {
                lemma_code(e);
                lemma_code(edge);
            }
            assert(self@.edges =~= old(self)@.edges.insert(edge));
        }
    }

    /// The station pairs found, in increasing order.
    pub fn finish(&self) -> (r: Vec<(u32, u32)>)
        requires
            self.wf(),
        ensures
            pairs_increase(r@),
            forall|i: int, j: int|
                #![trigger r@[i], r@[j]]
                0 <= i < j < r@.len() ==> r@[i].0 <= r@[j].0 && (r@[i].0 == r@[j].0 ==> r@[i].1
                    < r@[j].1),
            r@.to_set() == self@.edges,
    {
        let codes = sorted_numbers(&self.codes);
        proof {
            lemma_sorted_distinct(self.codes@, codes@);
        }
        let mut out: Vec<(u32, u32)> = Vec::new();
        let mut i: usize = 0;
        while i < codes.len()
            invariant
                i <= codes@.len(),
                out@ == Seq::new(i as nat, |k: int| code_edge(codes@[k])),
            decreases codes@.len() - i,
        {
            let code: u64 = codes[i];
            out.push(((code / 0x1_0000_0000) as u32, (code % 0x1_0000_0000) as u32));
            i = i + 1;
            assert(out@ =~= Seq::new(i as nat, |k: int| code_edge(codes@[k])));
        }
        proof {
            assert forall|k: int, l: int|
                #![trigger out@[k], out@[l]]
                0 <= k < l < out@.len() implies out@[k].0 < out@[l].0 || (out@[k].0 == out@[l].0
                && out@[k].1 < out@[l].1) by {
                assert(codes@[k] < codes@[l]);
            }
            assert forall|e: (u32, u32)| #[trigger] out@.to_set().contains(e) <==> self@.edges
                .contains(e) by {
                lemma_code(e);
                if out@.contains(e) {
                    let k = choose|k: int| 0 <= k < out@.len() && out@[k] == e;
                    assert(edge_code(e) == codes@[k]);
                    assert(codes@.contains(codes@[k]));
                }
                if self@.edges.contains(e) {
                    assert(self.codes@.contains(edge_code(e)));
                    assert(codes@.contains(edge_code(e)));
                    let k = choose|k: int| 0 <= k < codes@.len() && codes@[k] == edge_code(e);
                    assert(out@[k] == e);
                }
            }
            assert(out@.to_set() =~= self@.edges);
        }
        out
    }
}

proof fn lemma_code(edge: (u32, u32))
    ensures
        code_edge(edge_code(edge)) == edge,
{
}

/// Sorting numbers none of which occurs twice.
proof fn lemma_sorted_distinct(a: Seq<u64>, b: Seq<u64>)
    requires
        a.no_duplicates(),
        a.to_multiset() == b.to_multiset(),
        never_falls(b),
    ensures
        forall|i: int, j: int| #![trigger b[i], b[j]] 0 <= i < j < b.len() ==> b[i] < b[j],
        forall|x: u64| #[trigger] b.contains(x) <==> a.contains(x),
{
    broadcast use vstd::seq_lib::group_to_multiset_ensures;

    a.lemma_multiset_has_no_duplicates();
    b.lemma_multiset_has_no_duplicates_conv();
    assert forall|x: u64| #[trigger] b.contains(x) <==> a.contains(x) by {
        assert(b.to_multiset().contains(x) <==> b.contains(x));
        assert(a.to_multiset().contains(x) <==> a.contains(x));
    }
    assert forall|i: int, j: int| #![trigger b[i], b[j]] 0 <= i < j < b.len() implies b[i]
        < b[j] by {
        assert(b[i] != b[j]);
    }
}

/// Whether rows `i` and `j` make an edge: two readable rows of one trip with
/// consecutive sequence numbers at two different kept stations, and nothing but
/// unreadable rows of that trip in between.
pub open spec fn makes_edge(rows: Seq<TripRow>, i: int, j: int, edge: (u32, u32)) -> bool {
    &&& 0 <= i < j < rows.len()
    &&& rows[i].seq is Some && rows[j].seq is Some
    &&& rows[j].seq->0 == rows[i].seq->0 + 1
    &&& rows[i].node is Some && rows[j].node is Some
    &&& rows[i].node->0 != rows[j].node->0
    &&& edge == edge_between(rows[i].node->0, rows[j].node->0)
    &&& forall|k: int| i < k <= j ==> (#[trigger] rows[k]).trip == rows[i].trip
    &&& forall|k: int| i < k < j ==> (#[trigger] rows[k]).seq is None
}

/// Whether row `i` is the last readable row of the trip that the rows end in.
pub open spec fn is_last_read(rows: Seq<TripRow>, i: int) -> bool {
    &&& 0 <= i < rows.len()
    &&& rows[i].seq is Some
    &&& forall|k: int| i < k < rows.len() ==> (#[trigger] rows[k]).trip == rows[i].trip
    &&& forall|k: int| i < k < rows.len() ==> (#[trigger] rows[k]).seq is None
}

proof fn lemma_streamed_prev(rows: Seq<TripRow>)
    ensures
        rows.len() == 0 ==> streamed(rows).trip is None,
        rows.len() > 0 ==> streamed(rows).trip == Some(rows.last().trip),
        forall|i: int| #[trigger]
            is_last_read(rows, i) ==> streamed(rows).prev == (match rows[i].node {
                Some(node) => Some((rows[i].seq->0, node)),
                None => None::<(u32, u32)>,
            }),
        streamed(rows).prev is Some ==> exists|i: int| is_last_read(rows, i),
    decreases rows.len(),
{
    if rows.len() > 0 {
        let front = rows.drop_last();
        let n = rows.len() - 1;
        lemma_streamed_prev(front);
        let row = rows.last();
        assert(rows[n] == row);
        assert forall|i: int| #[trigger] is_last_read(rows, i) implies streamed(rows).prev == (
        match rows[i].node {
            Some(node) => Some((rows[i].seq->0, node)),
            None => None::<(u32, u32)>,
        }) by {
            if i < n {
                assert(rows[n].seq is None);
                assert(rows[n].trip == rows[i].trip);
                assert(is_last_read(front, i)) by {
                    assert forall|k: int| i < k < front.len() implies (#[trigger] front[k]).trip
                        == front[i].trip && front[k].seq is None by {
                        assert(rows[k] == front[k]);
                    }
                }
                if i == n - 1 {
                    assert(front.last() == rows[i]);
                } else {
                    assert(rows[n - 1].trip == rows[i].trip);
                    assert(front.last() == rows[n - 1]);
                }
            }
        }
        if streamed(rows).prev is Some {
            if row.seq is Some {
                assert(is_last_read(rows, n));
            } else {
                let i = choose|i: int| is_last_read(front, i);
                assert(streamed(front).trip == Some(front.last().trip));
                if i < n - 1 {
                    assert(front[n - 1].trip == front[i].trip);
                }
                assert(is_last_read(rows, i)) by {
                    assert forall|k: int| i < k < rows.len() implies (#[trigger] rows[k]).trip
                        == rows[i].trip && rows[k].seq is None by {
                        if k < n {
                            assert(rows[k] == front[k]);
                        }
                    }
                }
            }
        }
    }
}

/// No connection is invented: the edges of a stream are exactly those between
/// consecutive stops of one trip, and a dropped stop in between is never bridged.
pub proof fn law_edges_join_consecutive_stops(rows: Seq<TripRow>, edge: (u32, u32))
    ensures
        streamed(rows).edges.contains(edge) <==> exists|i: int, j: int| makes_edge(rows, i, j, edge),
    decreases rows.len(),
{
    if rows.len() == 0 {
        assert forall|i: int, j: int| !makes_edge(rows, i, j, edge) by {}
    } else {
        let front = rows.drop_last();
        let n = rows.len() - 1;
        let row = rows.last();
        assert(rows[n] == row);
        law_edges_join_consecutive_stops(front, edge);
        lemma_streamed_prev(front);
        let m = streamed(front);
        if streamed(rows).edges.contains(edge) {
            if m.edges.contains(edge) {
                let (i, j) = choose|i: int, j: int| makes_edge(front, i, j, edge);
                lemma_makes_edge_extends(rows, i, j, edge);
            } else {
                let i = choose|i: int| is_last_read(front, i);
                if i < n - 1 {
                    assert(front[n - 1].trip == front[i].trip);
                }
                assert(makes_edge(rows, i, n, edge)) by {
                    assert forall|k: int| i < k <= n implies (#[trigger] rows[k]).trip
                        == rows[i].trip && (k < n ==> rows[k].seq is None) by {
                        if k < n {
                            assert(rows[k] == front[k]);
                        }
                    }
                }
            }
        }
        if exists|i: int, j: int| makes_edge(rows, i, j, edge) {
            let (i, j) = choose|i: int, j: int| makes_edge(rows, i, j, edge);
            if j < n {
                assert(makes_edge(front, i, j, edge)) by {
                    assert forall|k: int| i < k <= j implies (#[trigger] front[k]).trip
                        == front[i].trip && (k < j ==> front[k].seq is None) by {
                        assert(rows[k] == front[k]);
                    }
                }
            } else {
                assert(is_last_read(front, i)) by {
                    assert forall|k: int| i < k < front.len() implies (#[trigger] front[k]).trip
                        == front[i].trip && front[k].seq is None by {
                        assert(rows[k] == front[k]);
                    }
                }
                assert(rows[n].trip == rows[i].trip);
                if i < n - 1 {
                    assert(rows[n - 1].trip == rows[i].trip);
                }
                assert(m.trip == Some(row.trip));
            }
        }
    }
}

proof fn lemma_makes_edge_extends(rows: Seq<TripRow>, i: int, j: int, edge: (u32, u32))
    requires
        rows.len() > 0,
        makes_edge(rows.drop_last(), i, j, edge),
    ensures
        makes_edge(rows, i, j, edge),
{
    let front = rows.drop_last();
    assert forall|k: int| i < k <= j implies (#[trigger] rows[k]).trip == rows[i].trip && (k < j
        ==> rows[k].seq is None) by {
        assert(rows[k] == front[k]);
    }
}

// ------------------------------------------------------- columns and masks

/// Whether column `i` is the first one with this name. A byte order mark in
/// front of a name does not count.
pub open spec fn is_column(headers: Seq<String>, name: Seq<char>, i: int) -> bool {
    &&& 0 <= i < headers.len()
    &&& without_leading(headers[i]@, '\u{feff}') == name
    &&& forall|j: int|
        0 <= j < i ==> without_leading((#[trigger] headers[j])@, '\u{feff}') != name
}

/// The column with a given name.
pub fn column(headers: &Vec<String>, name: &str) -> (r: Option<usize>)
    ensures
        match r {
            Some(i) => is_column(headers@, name@, i as int),
            None => forall|i: int| !#[trigger] is_column(headers@, name@, i),
        },
        match r {
            Some(i) => {
                &&& i < headers@.len()
                &&& without_leading(headers@[i as int]@, '\u{feff}') == name@
                &&& forall|j: int|
                    0 <= j < i ==> without_leading((#[trigger] headers@[j])@, '\u{feff}') != name@
            },
            None => forall|j: int|
                0 <= j < headers@.len() ==> without_leading((#[trigger] headers@[j])@, '\u{feff}')
                    != name@,
        },
{
    let mut i: usize = 0;
    while i < headers.len()
        invariant
            i <= headers@.len(),
            forall|j: int|
                0 <= j < i ==> without_leading((#[trigger] headers@[j])@, '\u{feff}') != name@,
        decreases headers@.len() - i,
    {
        if same(trim_start_char(headers[i].as_str(), '\u{feff}'), name) {
            return Some(i);
        }
        i = i + 1;
    }
    None
}

/// Whether some sample point lies in a zone.
pub open spec fn crosses(located: Seq<Option<u32>>, number: u32) -> bool {
    exists|i: int| 0 <= i < located.len() && #[trigger] located[i] == Some(number)
}

/// The zones that a vehicle passes through, given the zone at each point sampled
/// along its way. Every zone crossed is charged for, not just the zones of the
/// stops; a zone that the index does not know cannot be.
pub fn traversed_zones(located: &Vec<Option<u32>>, index: &ZoneIndex) -> (r: u64)
    ensures
        forall|b: int| #[trigger]
            has_bit(r, b) <==> 0 <= b < index@.len() && crosses(located@, index@[b]),
        forall|b: int| #[trigger]
            has_bit(r, b) <==> 0 <= b < index@.len() && located@.contains(Some(index@[b])),
{
    let n: usize = index.len();
    let mut mask: u64 = 0;
    let mut i: usize = 0;
    proof {
        lemma_no_bits(0);
    }
    while i < located.len()
        invariant
            n == index@.len(),
            zone_numbers_valid(index@),
            i <= located@.len(),
            forall|b: int| #[trigger]
                has_bit(mask, b) <==> 0 <= b < n && crosses(located@.take(i as int), index@[b]),
        decreases located@.len() - i,
    {
        let ghost old_mask = mask;
        let ghost head = located@.take(i + 1);
        let ghost part = located@.take(i as int);
        if let Some(number) = located[i] {
            if let Some(bit) = index.index_of(number) {
                proof {
                    lemma_bit_single(bit);
                    lemma_bit_or(mask, 1u64 << bit);
                }
                mask = mask | (1u64 << bit);
            }
        }
        proof {
            assert forall|b: int| 0 <= b < n implies (#[trigger] crosses(head, index@[b]) <==>
                crosses(part, index@[b]) || located@[i as int] == Some(index@[b])) by {
                if crosses(part, index@[b]) {
                    let k = choose|k: int| 0 <= k < part.len() && #[trigger] part[k] == Some(index@[b]);
                    assert(head[k] == Some(index@[b]));
                }
                if located@[i as int] == Some(index@[b]) {
                    assert(head[i as int] == Some(index@[b]));
                }
                if crosses(head, index@[b]) {
                    let k = choose|k: int| 0 <= k < head.len() && #[trigger] head[k] == Some(index@[b]);
                    if k < i {
                        assert(part[k] == Some(index@[b]));
                    }
                }
            }
            assert forall|b: int| #[trigger] has_bit(mask, b) <==> 0 <= b < n && crosses(
                head,
                index@[b],
            ) by {
                if 0 <= b < n && located@[i as int] == Some(index@[b]) {
                    assert(index@.contains(index@[b]));
                }
                assert(has_bit(old_mask, b) <==> 0 <= b < n && crosses(part, index@[b]));
            }
        }
        i = i + 1;
    }
    assert(located@.take(i as int) =~= located@);
    proof {
        assert forall|b: int| #[trigger] has_bit(mask, b) <==> 0 <= b < index@.len()
            && located@.contains(Some(index@[b])) by {
            if 0 <= b < index@.len() {
                if located@.contains(Some(index@[b])) {
                    let k = choose|k: int| 0 <= k < located@.len() && located@[k] == Some(index@[b]);
                    assert(located@[k] == Some(index@[b]));
                }
                assert(crosses(located@, index@[b]) <==> located@.contains(Some(index@[b])));
            }
        }
    }
    mask
}

// ------------------------------------------------ what becomes of each stop

/// The first pass numbers the stops that are their own stations.
proof fn lemma_parents_listed<C>(stops: Seq<FeedStop<C>>, k: nat)
    requires
        k <= stops.len() <= usize::MAX,
        forall|i: int, j: int|
            #![trigger stops[i], stops[j]]
            0 <= i < j < stops.len() ==> stops[i].id@ != stops[j].id@,
    ensures
        ({
            let c = parents(stops, k);
            &&& c.orphans == 0
            &&& c.stations.len() == stops.take(k as int).filter(
                |s: FeedStop<C>| s.parent is None && s.place is Some,
            ).len()
            &&& forall|j: int|
                0 <= j < k && (#[trigger] stops[j]).parent is None && stops[j].place is Some ==> {
                    &&& c.index.dom().contains(stops[j].id@)
                    &&& c.index[stops[j].id@] < c.stations.len()
                    &&& c.stations[c.index[stops[j].id@] as int] == station_of(stops[j])
                }
            &&& forall|id: Seq<char>| #[trigger]
                c.index.dom().contains(id) ==> exists|j: int|
                    0 <= j < k && (#[trigger] stops[j]).id@ == id && stops[j].parent is None
                        && stops[j].place is Some
        }),
    decreases k,
{
    reveal(Seq::filter);
    if k > 0 {
        lemma_parents_listed(stops, (k - 1) as nat);
        lemma_parents_indexed(stops, (k - 1) as nat);
        assert(stops.take(k as int).drop_last() =~= stops.take(k - 1));
        let stop = stops[k - 1];
        let c = parents(stops, k);
        let before = parents(stops, (k - 1) as nat);
        assert forall|j: int|
            0 <= j < k && (#[trigger] stops[j]).parent is None && stops[j].place is Some implies {
            &&& c.index.dom().contains(stops[j].id@)
            &&& c.index[stops[j].id@] < c.stations.len()
            &&& c.stations[c.index[stops[j].id@] as int] == station_of(stops[j])
        } by {
            if j < k - 1 {
                assert(stops[j].id@ != stops[k - 1].id@);
            }
        }
        assert forall|id: Seq<char>| #[trigger] c.index.dom().contains(id) implies exists|j: int|
            0 <= j < k && (#[trigger] stops[j]).id@ == id && stops[j].parent is None
                && stops[j].place is Some by {
            if before.index.dom().contains(id) {
                let j = choose|j: int|
                    0 <= j < k - 1 && (#[trigger] stops[j]).id@ == id && stops[j].parent is None
                        && stops[j].place is Some;
                assert(stops[j].id@ == id);
            } else {
                assert(stops[k - 1].id@ == id);
            }
        }
    }
}

/// The second pass gives the other stops their stations.
proof fn lemma_children_listed<C>(stops: Seq<FeedStop<C>>, k: nat)
    requires
        k <= stops.len(),
        2 * stops.len() <= usize::MAX,
        forall|i: int, j: int|
            #![trigger stops[i], stops[j]]
            0 <= i < j < stops.len() ==> stops[i].id@ != stops[j].id@,
    ensures
        ({
            let c = with_children(stops, k);
            &&& c.stations.len() == c.orphans + stops.filter(
                |s: FeedStop<C>| s.parent is None && s.place is Some,
            ).len()
            &&& forall|j: int|
                0 <= j < stops.len() && (#[trigger] stops[j]).parent is None
                    && stops[j].place is Some ==> {
                    &&& c.index.dom().contains(stops[j].id@)
                    &&& c.index[stops[j].id@] < c.stations.len()
                    &&& c.stations[c.index[stops[j].id@] as int] == station_of(stops[j])
                }
            &&& forall|i: int, j: int|
                #![trigger stops[i], stops[j]]
                0 <= i < k && 0 <= j < stops.len() && stops[i].parent is Some && stops[i].parent->0@
                    == stops[j].id@ && stops[j].parent is None && stops[j].place is Some ==> {
                    &&& c.index.dom().contains(stops[i].id@)
                    &&& c.index[stops[i].id@] == c.index[stops[j].id@]
                }
            &&& forall|i: int|
                0 <= i < k && (#[trigger] stops[i]).parent is Some && stops[i].place is Some && (
                forall|j: int|
                    0 <= j < stops.len() ==> (#[trigger] stops[j]).id@ != stops[i].parent->0@) ==> {
                    &&& c.index.dom().contains(stops[i].id@)
                    &&& c.index[stops[i].id@] < c.stations.len()
                    &&& c.stations[c.index[stops[i].id@] as int] == station_of(stops[i])
                }
            &&& forall|id: Seq<char>| #[trigger]
                c.index.dom().contains(id) ==> exists|j: int|
                    0 <= j < stops.len() && (#[trigger] stops[j]).id@ == id && ({
                        ||| stops[j].parent is None && stops[j].place is Some
                        ||| j < k && stops[j].parent is Some && (stops[j].place is Some || exists|
                            m: int,
                        |
                            0 <= m < stops.len() && (#[trigger] stops[m]).id@
                                == stops[j].parent->0@)
                    })
        }),
    decreases k,
{
    if k == 0 {
        lemma_parents_listed(stops, stops.len());
        assert(stops.take(stops.len() as int) =~= stops);
        let c = with_children(stops, 0);
        assert forall|id: Seq<char>| #[trigger] c.index.dom().contains(id) implies exists|j: int|
            0 <= j < stops.len() && (#[trigger] stops[j]).id@ == id && ({
                ||| stops[j].parent is None && stops[j].place is Some
                ||| j < k && stops[j].parent is Some && (stops[j].place is Some || exists|m: int|
                    0 <= m < stops.len() && (#[trigger] stops[m]).id@ == stops[j].parent->0@)
            }) by {
            let j = choose|j: int|
                0 <= j < stops.len() && (#[trigger] stops[j]).id@ == id && stops[j].parent is None
                    && stops[j].place is Some;
            assert(stops[j].id@ == id);
        }
    } else {
        lemma_children_listed(stops, (k - 1) as nat);
        lemma_children_indexed(stops, (k - 1) as nat);
        let before = with_children(stops, (k - 1) as nat);
        let c = with_children(stops, k);
        let stop = stops[k - 1];
        assert forall|j: int|
            0 <= j < stops.len() && (#[trigger] stops[j]).parent is None
                && stops[j].place is Some implies {
            &&& c.index.dom().contains(stops[j].id@)
            &&& c.index[stops[j].id@] < c.stations.len()
            &&& c.stations[c.index[stops[j].id@] as int] == station_of(stops[j])
            &&& c.index[stops[j].id@] == before.index[stops[j].id@]
        } by {
            if stop.parent is Some {
                lemma_ids_apart(stops, j, k - 1);
            }
        }
        assert forall|i: int, j: int|
            #![trigger stops[i], stops[j]]
            0 <= i < k && 0 <= j < stops.len() && stops[i].parent is Some && stops[i].parent->0@
                == stops[j].id@ && stops[j].parent is None && stops[j].place is Some implies {
            &&& c.index.dom().contains(stops[i].id@)
            &&& c.index[stops[i].id@] == c.index[stops[j].id@]
        } by {
            if stop.parent is Some {
                lemma_ids_apart(stops, j, k - 1);
            }
            if i < k - 1 {
                lemma_ids_apart(stops, i, k - 1);
            }
        }
        assert forall|i: int|
            0 <= i < k && (#[trigger] stops[i]).parent is Some && stops[i].place is Some && (forall|
                j: int,
            |
                0 <= j < stops.len() ==> (#[trigger] stops[j]).id@ != stops[i].parent->0@) implies {
            &&& c.index.dom().contains(stops[i].id@)
            &&& c.index[stops[i].id@] < c.stations.len()
            &&& c.stations[c.index[stops[i].id@] as int] == station_of(stops[i])
        } by {
            if i < k - 1 {
                lemma_ids_apart(stops, i, k - 1);
            } else if before.index.dom().contains(stop.parent->0@) {
                let j = choose|j: int|
                    0 <= j < stops.len() && (#[trigger] stops[j]).id@ == stop.parent->0@;
                assert(false);
            }
        }
        assert forall|id: Seq<char>| #[trigger] c.index.dom().contains(id) implies exists|j: int|
            0 <= j < stops.len() && (#[trigger] stops[j]).id@ == id && ({
                ||| stops[j].parent is None && stops[j].place is Some
                ||| j < k && stops[j].parent is Some && (stops[j].place is Some || exists|m: int|
                    0 <= m < stops.len() && (#[trigger] stops[m]).id@ == stops[j].parent->0@)
            }) by {
            if before.index.dom().contains(id) {
                let j = choose|j: int|
                    0 <= j < stops.len() && (#[trigger] stops[j]).id@ == id && ({
                        ||| stops[j].parent is None && stops[j].place is Some
                        ||| j < k - 1 && stops[j].parent is Some && (stops[j].place is Some
                            || exists|m: int|
                            0 <= m < stops.len() && (#[trigger] stops[m]).id@
                                == stops[j].parent->0@)
                    });
                assert(stops[j].id@ == id);
            } else {
                assert(stops[k - 1].id@ == id);
                if before.index.dom().contains(stop.parent->0@) {
                    let m = choose|m: int|
                        0 <= m < stops.len() && (#[trigger] stops[m]).id@ == stop.parent->0@;
                    assert(stops[m].id@ == stops[k - 1].parent->0@);
                }
            }
        }
    }
}

proof fn lemma_ids_apart<C>(stops: Seq<FeedStop<C>>, i: int, j: int)
    requires
        0 <= i < stops.len(),
        0 <= j < stops.len(),
        forall|i: int, j: int|
            #![trigger stops[i], stops[j]]
            0 <= i < j < stops.len() ==> stops[i].id@ != stops[j].id@,
    ensures
        i != j ==> stops[i].id@ != stops[j].id@,
{
    if i < j {
        assert(stops[i].id@ != stops[j].id@);
    } else if j < i {
        assert(stops[j].id@ != stops[i].id@);
    }
}

/// What becomes of a feed's stops, their ids being distinct. A stop without a parent
/// that has a place is its own station, with its id, name and place. A stop whose
/// parent is such a stop belongs to the parent's station. A stop whose parent is not
/// in the feed is its own station where it has a place. A stop without a parent and
/// without a place has no station. The stations are the first kind and the orphans,
/// each once.
pub proof fn law_stops_belong_to_their_parents<C>(stops: Seq<FeedStop<C>>, x: int, y: int)
    requires
        2 * stops.len() <= usize::MAX,
        0 <= x < stops.len(),
        0 <= y < stops.len(),
        forall|i: int, j: int|
            #![trigger stops[i], stops[j]]
            0 <= i < j < stops.len() ==> stops[i].id@ != stops[j].id@,
    ensures
        ({
            let c = collapsed(stops);
            let stop = stops[x];
            let own = {
                &&& c.index.dom().contains(stop.id@)
                &&& c.index[stop.id@] < c.stations.len()
                &&& c.stations[c.index[stop.id@] as int].id == stop.id@
                &&& c.stations[c.index[stop.id@] as int].name == (match stop.name {
                    Some(name) => name@,
                    None => Seq::empty(),
                })
                &&& stop.place == Some(
                    (
                        c.stations[c.index[stop.id@] as int].lon,
                        c.stations[c.index[stop.id@] as int].lat,
                    ),
                )
            };
            &&& stop.parent is None && stop.place is Some ==> own
            &&& stop.parent is None && stop.place is None ==> !c.index.dom().contains(stop.id@)
            &&& stop.parent is Some && stop.parent->0@ == stops[y].id@ && stops[y].parent is None
                && stops[y].place is Some ==> c.index.dom().contains(stop.id@)
                && c.index[stop.id@] == c.index[stops[y].id@]
            &&& stop.parent is Some && (forall|j: int|
                0 <= j < stops.len() ==> (#[trigger] stops[j]).id@ != stop.parent->0@) ==> if stop.place is Some {
                own
            } else {
                !c.index.dom().contains(stop.id@)
            }
            &&& c.stations.len() == c.orphans + stops.filter(
                |s: FeedStop<C>| s.parent is None && s.place is Some,
            ).len()
        }),
{
    let order = law_sorted_items_rank_in_order(stops);
    let pick = choose|order: Seq<usize>| is_order(stops, order);
    let walked = sorted(stops);
    let own_order = lemma_order_exists(stops);
    assert(is_order(stops, pick));
    assert(walked == taken(stops, pick));
    assert forall|i: int, j: int|
        #![trigger walked[i], walked[j]]
        0 <= i < j < walked.len() implies walked[i].id@ != walked[j].id@ by {
        assert(pick[i] != pick[j]);
        lemma_ids_apart(stops, pick[i] as int, pick[j] as int);
    }
    lemma_order_complete(stops, pick, x);
    lemma_order_complete(stops, pick, y);
    let i = choose|i: int| 0 <= i < pick.len() && #[trigger] pick[i] == x;
    let j = choose|j: int| 0 <= j < pick.len() && #[trigger] pick[j] == y;
    assert(walked[i] == stops[x] && walked[j] == stops[y]);
    lemma_children_listed(walked, walked.len());
    let c = collapsed(stops);
    let stop = stops[x];
    if stop.parent is Some && (forall|j: int|
        0 <= j < stops.len() ==> (#[trigger] stops[j]).id@ != stop.parent->0@) {
        assert forall|m: int| 0 <= m < walked.len() implies (#[trigger] walked[m]).id@
            != walked[i].parent->0@ by {
            assert(walked[m] == stops[pick[m] as int]);
        }
    }
    if c.index.dom().contains(stop.id@) {
        let m = choose|m: int|
            0 <= m < walked.len() && (#[trigger] walked[m]).id@ == stop.id@ && ({
                ||| walked[m].parent is None && walked[m].place is Some
                ||| m < walked.len() && walked[m].parent is Some && (walked[m].place is Some
                    || exists|n: int|
                    0 <= n < walked.len() && (#[trigger] walked[n]).id@ == walked[m].parent->0@)
            });
        lemma_ids_apart(walked, m, i);
        assert(m == i);
    }
    let kind = |s: FeedStop<C>| s.parent is None && s.place is Some;
    lemma_kind_kept(stops, walked, kind);
}

/// How many items are of a kind does not depend on their order.
pub proof fn lemma_kind_kept<T>(a: Seq<T>, b: Seq<T>, kind: spec_fn(T) -> bool)
    requires
        a.to_multiset() == b.to_multiset(),
    ensures
        a.filter(kind).len() == b.filter(kind).len(),
{
    lemma_kind_counted(a, kind);
    lemma_kind_counted(b, kind);
}

proof fn lemma_kind_counted<T>(s: Seq<T>, kind: spec_fn(T) -> bool)
    ensures
        s.filter(kind).len() == s.to_multiset().filter(kind).len(),
    decreases s.len(),
{
    broadcast use vstd::seq_lib::group_to_multiset_ensures;
    broadcast use vstd::multiset::group_multiset_axioms;

    reveal(Seq::filter);
    if s.len() == 0 {
        assert(s.to_multiset() =~= Multiset::empty());
        assert(s.to_multiset().filter(kind) =~= Multiset::empty());
    } else {
        let front = s.drop_last();
        lemma_kind_counted(front, kind);
        assert(front.push(s.last()) =~= s);
        assert(s.to_multiset() =~= front.to_multiset().insert(s.last()));
        if kind(s.last()) {
            assert(s.to_multiset().filter(kind) =~= front.to_multiset().filter(kind).insert(
                s.last(),
            ));
        } else {
            assert(s.to_multiset().filter(kind) =~= front.to_multiset().filter(kind));
        }
    }
}

// ------------------------------------------------ what the timetable says

/// A trip that calls at two kept stations in a row joins them: rows `i` and `j` are of
/// one trip, with consecutive numbers, at two different stations, with nothing between
/// them but rows of the trip whose numbers cannot be read.
pub proof fn law_consecutive_calls_join_stations(rows: Seq<TripRow>, i: int, j: int)
    requires
        0 <= i < j < rows.len(),
        rows[i].seq is Some,
        rows[j].seq is Some,
        rows[j].seq->0 == rows[i].seq->0 + 1,
        rows[i].node is Some,
        rows[j].node is Some,
        rows[i].node->0 != rows[j].node->0,
        forall|k: int| i < k <= j ==> (#[trigger] rows[k]).trip == rows[i].trip,
        forall|k: int| i < k < j ==> (#[trigger] rows[k]).seq is None,
    ensures
        rows[i].node->0 < rows[j].node->0 ==> streamed(rows).edges.contains(
            (rows[i].node->0, rows[j].node->0),
        ),
        rows[i].node->0 > rows[j].node->0 ==> streamed(rows).edges.contains(
            (rows[j].node->0, rows[i].node->0),
        ),
{
    let edge = edge_between(rows[i].node->0, rows[j].node->0);
    assert(makes_edge(rows, i, j, edge));
    law_edges_join_consecutive_stops(rows, edge);
}

/// Stations that are joined have such a trip between them.
pub proof fn law_joined_stations_have_consecutive_calls(rows: Seq<TripRow>, edge: (u32, u32)) -> (r:
    (int, int))
    requires
        streamed(rows).edges.contains(edge),
    ensures
        ({
            let (i, j) = r;
            &&& 0 <= i < j < rows.len()
            &&& rows[i].seq is Some && rows[j].seq is Some
            &&& rows[j].seq->0 == rows[i].seq->0 + 1
            &&& rows[i].node is Some && rows[j].node is Some
            &&& edge.0 < edge.1
            &&& (rows[i].node->0 == edge.0 && rows[j].node->0 == edge.1) || (rows[j].node->0
                == edge.0 && rows[i].node->0 == edge.1)
            &&& forall|k: int| i < k <= j ==> (#[trigger] rows[k]).trip == rows[i].trip
            &&& forall|k: int| i < k < j ==> (#[trigger] rows[k]).seq is None
        }),
{
    law_edges_join_consecutive_stops(rows, edge);
    let (i, j) = choose|i: int, j: int| makes_edge(rows, i, j, edge);
    assert(makes_edge(rows, i, j, edge));
    (i, j)
}

/// What a row says: its trip, the number it reads as, and the station its stop belongs
/// to, where that station lies in a zone.
pub proof fn law_a_row_names_a_zoned_station(
    trip: Seq<char>,
    stop: Seq<char>,
    seq: Seq<char>,
    index: Map<Seq<char>, usize>,
    zones: Seq<Option<u32>>,
)
    requires
        zones.len() <= u32::MAX,
    ensures
        ({
            let row = row_of(trip, stop, seq, index, zones);
            &&& row.trip == trip
            &&& row.seq == parsed_u32(trimmed(seq))
            &&& row.node is Some <==> index.dom().contains(stop) && index[stop] < zones.len()
                && zones[index[stop] as int] is Some
            &&& row.node is Some ==> row.node->0 == index[stop]
        }),
{
}

/// A vehicle crosses the zones of its sample points and no others: one more point adds
/// the zone it lies in, if any, and nothing where there are no points is crossed.
pub proof fn law_a_point_adds_its_zone(located: Seq<Option<u32>>, point: Option<u32>, number: u32)
    ensures
        !crosses(Seq::empty(), number),
        crosses(located.push(point), number) <==> crosses(located, number) || point == Some(number),
        crosses(located, number) <==> located.contains(Some(number)),
{
    let more = located.push(point);
    if crosses(located, number) {
        let i = choose|i: int| 0 <= i < located.len() && #[trigger] located[i] == Some(number);
        assert(more[i] == Some(number));
        assert(located.contains(Some(number)));
    }
    if located.contains(Some(number)) {
        let i = choose|i: int| 0 <= i < located.len() && located[i] == Some(number);
        assert(located[i] == Some(number));
    }
    if point == Some(number) {
        assert(more[located.len() as int] == Some(number));
    }
    if crosses(more, number) {
        let i = choose|i: int| 0 <= i < more.len() && #[trigger] more[i] == Some(number);
        if i < located.len() {
            assert(located[i] == Some(number));
        }
    }
}

/// No two columns are the one with a name: it is the first header that reads so once
/// its byte order marks are off.
pub proof fn law_a_name_leads_to_one_column(headers: Seq<String>, name: Seq<char>, i: int, j: int)
    requires
        is_column(headers, name, i),
    ensures
        0 <= i < headers.len(),
        without_leading(headers[i]@, '\u{feff}') == name,
        is_column(headers, name, j) ==> j == i,
        0 <= j < headers.len() && headers[j]@ == headers[i]@ ==> i <= j,
{
}

} // verus!
