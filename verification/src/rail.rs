//! The national rail-station graph: which services are rail, which stations they
//! call at, and how fast they run between them.
//!
//! Only rail is kept. The canton map is stop-level because ZVV fares are, but the
//! national tariff is a railway tariff: bus stops could not be priced by it.

use crate::components::{is_partition, row_components, row_graph, rows_mutual};
use crate::pipeline::{new_number, renumbered};
use crate::seqs::nested;
use crate::sorting::{is_order, sort_order, taken, Ranked};
use crate::stations::{code_edge, edge_between, edge_code, StopIndex};
use crate::text::{
    all_digits, decimal, law_trimming_takes_ends_off, parse_u32, parsed_u32, pieces, same, split, starts_with, texts, trim,
    trim_char, trimmed, trimmed_of,
};
use std::collections::HashMap;
use vstd::hash_set::StringHashSet;
use vstd::prelude::*;
use vstd::string::*;

verus! {

broadcast use vstd::std_specs::hash::group_hash_axioms;

// ------------------------------------------------------- clocks and types

/// The parts of a clock reading `H:M:S`, as they are written.
#[derive(Debug, Clone, PartialEq, Eq)]
pub struct ClockParts {
    pub hours: String,
    pub minutes: String,
    /// Missing where the reading ends with the minutes.
    pub seconds: Option<String>,
}

/// Splits a GTFS `HH:MM:SS` clock at its colons. A reading without minutes is none;
/// what follows the seconds is ignored.
pub fn clock_parts(s: &str) -> (r: Option<ClockParts>)
    ensures
        ({
            let parts = pieces(trimmed(s@), ':');
            match r {
                Some(c) => {
                    &&& parts.len() >= 2
                    &&& c.hours@ == parts[0]
                    &&& c.minutes@ == parts[1]
                    &&& c.seconds is Some <==> parts.len() >= 3
                    &&& c.seconds is Some ==> c.seconds->0@ == parts[2]
                },
                None => parts.len() < 2,
            }
        }),
{
    let trimmed_clock = trim(s);
    let parts = split(trimmed_clock, ':');
    let ghost shown = pieces(trimmed(s@), ':');
    proof {
        assert(texts(parts@).len() == parts@.len());
        assert forall|i: int| 0 <= i < parts@.len() implies (#[trigger] parts@[i])@ == shown[i] by {
            assert(texts(parts@)[i] == shown[i]);
        }
    }
    if parts.len() < 2 {
        return None;
    }
    let seconds = if parts.len() > 2 {
        assert(parts@[2]@ == shown[2]);
        Some(parts[2].clone())
    } else {
        None
    };
    assert(parts@[0]@ == shown[0] && parts@[1]@ == shown[1]);
    Some(ClockParts { hours: parts[0].clone(), minutes: parts[1].clone(), seconds })
}

/// What a clock column says of a call at a station.
#[derive(Debug, Clone, Copy, PartialEq, Eq, Structural)]
pub enum Clock {
    /// Nothing that can be read.
    Blank,
    /// A reading that is no point in time, such as an infinite one.
    Never,
    /// A time, in whole units of the caller's choice.
    At(i64),
}

/// Whether a route type is rail: the extended types 100 to 117, and type 2.
pub open spec fn is_rail_type(s: Seq<char>) -> bool {
    match parsed_u32(trimmed(s)) {
        Some(t) => 100 <= t <= 117 || t == 2,
        None => false,
    }
}

/// GTFS extended route types 100-117 are all forms of rail.
pub fn is_rail(route_type: &str) -> (r: bool)
    ensures
        r == is_rail_type(route_type@),
        r == match parsed_u32(trimmed(route_type@)) {
            Some(t) => t == 2 || (100 <= t && t <= 117),
            None => false,
        },
{
    match parse_u32(trim(route_type)) {
        Some(t) => (100 <= t && t <= 117) || t == 2,
        None => false,
    }
}

/// Whether a DIDOK number is Swiss: it begins with 85, quotation marks aside.
pub open spec fn is_swiss_number(didok: Seq<char>) -> bool {
    "85"@.is_prefix_of(trimmed_of(didok, |c: char| c == '"'))
}

/// Whether a stop is Swiss. The feed carries foreign stations too, and with them
/// a route could go the long way round through another country.
pub fn is_swiss(didok: &str) -> (r: bool)
    ensures
        r == is_swiss_number(didok@),
        ({
            let bare = trimmed_of(didok@, |c: char| c == '"');
            r == (bare.len() >= 2 && bare[0] == '8' && bare[1] == '5')
        }),
{
    proof {
        reveal_strlit("85");
        let bare = trimmed_of(didok@, |c: char| c == '"');
        assert(bare.len() >= 2 && bare[0] == '8' && bare[1] == '5' ==> "85"@ =~= bare.subrange(
            0,
            2,
        ));
        assert("85"@.is_prefix_of(bare) ==> "85"@[0] == bare[0] && "85"@[1] == bare[1]);
    }
    starts_with(trim_char(didok, '"'), "85")
}

// ------------------------------------------------------- routes and trips

/// A set of ids.
pub struct IdSet {
    ids: StringHashSet,
}

impl View for IdSet {
    type V = Set<Seq<char>>;

    closed spec fn view(&self) -> Set<Seq<char>> {
        self.ids@
    }
}

impl IdSet {
    pub fn new() -> (r: IdSet)
        ensures
            r@ == Set::<Seq<char>>::empty(),
    {
        IdSet { ids: StringHashSet::new() }
    }

    pub fn contains(&self, id: &str) -> (r: bool)
        ensures
            r == self@.contains(id@),
    {
        self.ids.contains(id)
    }

    /// Takes in a row of the routes: its id, if it is a rail route.
    pub fn note_route(&mut self, id: &str, route_type: &str)
        ensures
            final(self)@ == if is_rail_type(route_type@) {
                old(self)@.insert(id@)
            } else {
                old(self)@
            },
            final(self)@ == match parsed_u32(trimmed(route_type@)) {
                Some(t) => if t == 2 || (100 <= t && t <= 117) {
                    old(self)@.insert(id@)
                } else {
                    old(self)@
                },
                None => old(self)@,
            },
    {
        if is_rail(route_type) {
            self.ids.insert(id.to_owned());
        }
    }

    /// Takes in a row of the trips: its id, if its route is among `routes`.
    pub fn note_trip(&mut self, routes: &IdSet, route: &str, trip: &str)
        ensures
            final(self)@ == if routes@.contains(route@) {
                old(self)@.insert(trip@)
            } else {
                old(self)@
            },
    {
        if routes.contains(route) {
            self.ids.insert(trip.to_owned());
        }
    }
}

// ------------------------------------------------------------------ stops

/// A rail station.
#[derive(Debug, Clone)]
pub struct NatStation<C> {
    /// GTFS stop id of the station (the parent, where there is one).
    pub id: String,
    pub name: String,
    pub lon: C,
    pub lat: C,
    /// DIDOK/UIC number, the join key to the tariff data.
    pub uic: String,
}

/// A Swiss stop of the feed; `parent` is empty where it has none.
#[derive(Debug, Clone)]
pub struct PendingStop<C> {
    pub id: String,
    pub parent: String,
    pub name: String,
    pub lon: C,
    pub lat: C,
    pub uic: String,
}

/// What a [`NatStation`] holds.
pub struct NatModel<C> {
    pub id: Seq<char>,
    pub name: Seq<char>,
    pub lon: C,
    pub lat: C,
    pub uic: Seq<char>,
}

impl<C> View for NatStation<C> {
    type V = NatModel<C>;

    open spec fn view(&self) -> NatModel<C> {
        NatModel {
            id: self.id@,
            name: self.name@,
            lon: self.lon,
            lat: self.lat,
            uic: self.uic@,
        }
    }
}

/// The contents of a list of stations.
pub open spec fn nat_models<C>(v: Seq<NatStation<C>>) -> Seq<NatModel<C>> {
    Seq::new(v.len(), |i: int| v[i]@)
}

/// What a station made of a stop holds.
pub open spec fn nat_station_of<C>(p: PendingStop<C>) -> NatModel<C> {
    NatModel { id: p.id@, name: p.name@, lon: p.lon, lat: p.lat, uic: p.uic@ }
}

/// How far collapsing has got.
pub struct NatCollapse<C> {
    pub stations: Seq<NatModel<C>>,
    pub index: Map<Seq<char>, usize>,
}

/// The stop becomes a station of its own.
pub open spec fn own_station<C>(c: NatCollapse<C>, p: PendingStop<C>) -> NatCollapse<C> {
    NatCollapse {
        stations: c.stations.push(nat_station_of(p)),
        index: c.index.insert(p.id@, c.stations.len() as usize),
    }
}

/// Every one of the first `k` stops without a parent becomes a station.
pub open spec fn nat_parents<C>(stops: Seq<PendingStop<C>>, k: nat) -> NatCollapse<C>
    decreases k,
{
    if k == 0 {
        NatCollapse { stations: Seq::empty(), index: Map::empty() }
    } else {
        let c = nat_parents(stops, (k - 1) as nat);
        if stops[k - 1].parent@.len() == 0 {
            own_station(c, stops[k - 1])
        } else {
            c
        }
    }
}

/// Every one of the first `k` stops with a parent goes to its parent's station,
/// or becomes one of its own where that is missing.
pub open spec fn nat_children<C>(stops: Seq<PendingStop<C>>, k: nat) -> NatCollapse<C>
    decreases k,
{
    if k == 0 {
        nat_parents(stops, stops.len())
    } else {
        let c = nat_children(stops, (k - 1) as nat);
        let p = stops[k - 1];
        if p.parent@.len() == 0 {
            c
        } else if c.index.dom().contains(p.parent@) {
            NatCollapse {
                stations: c.stations,
                index: c.index.insert(p.id@, c.index[p.parent@]),
            }
        } else {
            own_station(c, p)
        }
    }
}

fn nat_station<C: Copy>(p: &PendingStop<C>) -> (r: NatStation<C>)
    ensures
        r@ == nat_station_of(*p),
{
    NatStation {
        id: p.id.clone(),
        name: p.name.clone(),
        lon: p.lon,
        lat: p.lat,
        uic: p.uic.clone(),
    }
}

fn has_parent<C>(p: &PendingStop<C>) -> (r: bool)
    ensures
        r == (p.parent@.len() != 0),
{
    p.parent.as_str().unicode_len() != 0
}

/// Collapses stops onto parent stations, in the order of the feed. The index
/// knows the station of every stop id.
pub fn collapse_rail_stops<C: Copy>(stops: &Vec<PendingStop<C>>) -> (r: (
    Vec<NatStation<C>>,
    StopIndex,
))
    ensures
        nat_models(r.0@) == nat_children(stops@, stops@.len()).stations,
        r.1@ == nat_children(stops@, stops@.len()).index,
{
    let mut stations: Vec<NatStation<C>> = Vec::new();
    let mut index = StopIndex::new();
    assert(nat_models(stations@) =~= Seq::empty());
    let mut k: usize = 0;
    // Parents first, so children can be mapped onto them.
    while k < stops.len()
        invariant
            k <= stops@.len(),
            nat_models(stations@) == nat_parents(stops@, k as nat).stations,
            index@ == nat_parents(stops@, k as nat).index,
        decreases stops@.len() - k,
    {
        let stop = &stops[k];
        let ghost sofar = nat_models(stations@);
        if !has_parent(stop) {
            index.insert(stop.id.clone(), stations.len());
            stations.push(nat_station(stop));
            assert(nat_models(stations@) =~= sofar.push(nat_station_of(*stop)));
        }
        k = k + 1;
    }
    k = 0;
    while k < stops.len()
        invariant
            k <= stops@.len(),
            nat_models(stations@) == nat_children(stops@, k as nat).stations,
            index@ == nat_children(stops@, k as nat).index,
        decreases stops@.len() - k,
    {
        let stop = &stops[k];
        let ghost sofar = nat_models(stations@);
        if has_parent(stop) {
            match index.get(stop.parent.as_str()) {
                Some(station) => {
                    index.insert(stop.id.clone(), station);
                },
                None => {
                    index.insert(stop.id.clone(), stations.len());
                    stations.push(nat_station(stop));
                    assert(nat_models(stations@) =~= sofar.push(nat_station_of(*stop)));
                },
            }
        }
        k = k + 1;
    }
    (stations, index)
}

// --------------------------------------------------------- timetable rows

/// What a `stop_times` row says, once looked up.
pub struct RailRow {
    pub trip: Seq<char>,
    pub rail: bool,
    pub seq: Option<u32>,
    pub node: Option<u32>,
    pub arrival: Clock,
    pub departure: Clock,
}

/// How far a stream of rows has got: the trip being read and whether it is rail,
/// the sequence number, station and clock of its last readable row, and the
/// fastest run found between each pair of stations.
pub struct RailModel {
    pub trip: Seq<char>,
    pub rail: bool,
    pub prev: Option<(u32, u32, Clock)>,
    pub edges: Map<(u32, u32), Option<u64>>,
}

/// The run time between a departure and an arrival, where both are times and the
/// arrival is later.
pub open spec fn run_time(departure: Clock, arrival: Clock) -> Option<u64> {
    match (departure, arrival) {
        (Clock::At(p), Clock::At(a)) => if a > p {
            Some((a - p) as u64)
        } else {
            None
        },
        _ => None,
    }
}

/// The faster of a known run and a new one; an unknown one is slower than any.
pub open spec fn faster(known: Option<u64>, run: Option<u64>) -> Option<u64> {
    match (known, run) {
        (Some(k), Some(r)) => if r < k {
            run
        } else {
            known
        },
        (None, _) => run,
        (_, None) => known,
    }
}

/// The edges with one more run between two stations.
pub open spec fn with_run(
    edges: Map<(u32, u32), Option<u64>>,
    edge: (u32, u32),
    run: Option<u64>,
) -> Map<(u32, u32), Option<u64>> {
    if edges.dom().contains(edge) {
        edges.insert(edge, faster(edges[edge], run))
    } else {
        edges.insert(edge, run)
    }
}

/// The stream one row further. `row.rail` says whether the row's trip is rail.
pub open spec fn after_rail_row(m: RailModel, row: RailRow) -> RailModel {
    let new_trip = m.trip != row.trip;
    let rail = if new_trip {
        row.rail
    } else {
        m.rail
    };
    let prev = if new_trip {
        None
    } else {
        m.prev
    };
    if !rail || row.seq is None {
        RailModel { trip: row.trip, rail, prev, edges: m.edges }
    } else {
        let seq = row.seq->0;
        let clock = if row.departure is Blank {
            row.arrival
        } else {
            row.departure
        };
        RailModel {
            trip: row.trip,
            rail,
            prev: match row.node {
                Some(node) => Some((seq, node, clock)),
                None => None,
            },
            edges: match (prev, row.node) {
                (Some((last, from, left)), Some(to)) => if seq == last + 1 && from != to {
                    with_run(m.edges, edge_between(from, to), run_time(left, row.arrival))
                } else {
                    m.edges
                },
                _ => m.edges,
            },
        }
    }
}

/// A stream that has read nothing yet.
pub open spec fn no_rail_rows() -> RailModel {
    RailModel { trip: Seq::empty(), rail: false, prev: None, edges: Map::empty() }
}

/// What a row says under a stop index and the rail trips.
pub open spec fn rail_row_of(
    trip: Seq<char>,
    stop: Seq<char>,
    seq: Seq<char>,
    arrival: Clock,
    departure: Clock,
    index: Map<Seq<char>, usize>,
    trips: Set<Seq<char>>,
) -> RailRow {
    RailRow {
        trip,
        rail: trips.contains(trip),
        seq: parsed_u32(trimmed(seq)),
        node: if index.dom().contains(stop) {
            Some(index[stop] as u32)
        } else {
            None
        },
        arrival,
        departure,
    }
}

/// One edge with its fastest run.
#[derive(Debug, Clone, Copy, PartialEq, Eq, Structural)]
pub struct Run {
    pub a: u32,
    pub b: u32,
    /// Fastest observed run time, in the unit of the clocks, where any could be read.
    pub time: Option<u64>,
}

/// Collects the fastest scheduled run between consecutive stations of rail trips.
pub struct RailStream {
    trip: String,
    rail: bool,
    prev: Option<(u32, u32, Clock)>,
    places: HashMap<u64, usize>,
    runs: Vec<Run>,
}

/// The edges that a list of runs stands for.
pub open spec fn runs_map(runs: Seq<Run>) -> Map<(u32, u32), Option<u64>>
    decreases runs.len(),
{
    if runs.len() == 0 {
        Map::empty()
    } else {
        let last = runs.last();
        runs_map(runs.drop_last()).insert((last.a, last.b), last.time)
    }
}

/// Whether no pair of stations occurs twice in a list of runs.
pub open spec fn pairs_distinct(runs: Seq<Run>) -> bool {
    forall|i: int, j: int|
        #![trigger runs[i], runs[j]]
        0 <= i < j < runs.len() ==> runs[i].a != runs[j].a || runs[i].b != runs[j].b
}

proof fn lemma_runs_map(runs: Seq<Run>)
    requires
        pairs_distinct(runs),
    ensures
        forall|i: int|
            0 <= i < runs.len() ==> runs_map(runs).dom().contains(
                ((#[trigger] runs[i]).a, runs[i].b),
            ) && runs_map(runs)[(runs[i].a, runs[i].b)] == runs[i].time,
        forall|e: (u32, u32)| #[trigger]
            runs_map(runs).dom().contains(e) ==> exists|i: int|
                0 <= i < runs.len() && (#[trigger] runs[i]).a == e.0 && runs[i].b == e.1,
    decreases runs.len(),
{
    if runs.len() > 0 {
        let front = runs.drop_last();
        assert(pairs_distinct(front)) by {
            assert forall|i: int, j: int|
                #![trigger front[i], front[j]]
                0 <= i < j < front.len() implies front[i].a != front[j].a || front[i].b
                != front[j].b by {
                assert(runs[i] == front[i] && runs[j] == front[j]);
            }
        }
        lemma_runs_map(front);
        let last = runs.last();
        assert(runs[runs.len() - 1] == last);
        assert forall|i: int| 0 <= i < runs.len() implies runs_map(runs).dom().contains(
            ((#[trigger] runs[i]).a, runs[i].b),
        ) && runs_map(runs)[(runs[i].a, runs[i].b)] == runs[i].time by {
            if i < front.len() {
                assert(front[i] == runs[i]);
                assert(runs[i].a != runs[runs.len() - 1].a || runs[i].b != runs[runs.len() - 1].b);
            }
        }
        assert forall|e: (u32, u32)| #[trigger] runs_map(runs).dom().contains(e) implies exists|
            i: int,
        |
            0 <= i < runs.len() && (#[trigger] runs[i]).a == e.0 && runs[i].b == e.1 by {
            if e == (last.a, last.b) {
                assert(runs[runs.len() - 1].a == e.0);
            } else {
                assert(runs_map(front).dom().contains(e));
                let i = choose|i: int|
                    0 <= i < front.len() && (#[trigger] front[i]).a == e.0 && front[i].b == e.1;
                assert(runs[i] == front[i]);
            }
        }
    }
}

/// Two lists of runs with the same pairs and times stand for the same edges.
proof fn lemma_runs_update(runs: Seq<Run>, i: int, run: Run)
    requires
        pairs_distinct(runs),
        0 <= i < runs.len(),
        run.a == runs[i].a,
        run.b == runs[i].b,
    ensures
        pairs_distinct(runs.update(i, run)),
        runs_map(runs.update(i, run)) == runs_map(runs).insert((run.a, run.b), run.time),
{
    let after = runs.update(i, run);
    assert(pairs_distinct(after)) by {
        assert forall|x: int, y: int|
            #![trigger after[x], after[y]]
            0 <= x < y < after.len() implies after[x].a != after[y].a || after[x].b != after[y].b by {
            assert(runs[x].a != runs[y].a || runs[x].b != runs[y].b);
        }
    }
    lemma_runs_map(runs);
    lemma_runs_map(after);
    let left = runs_map(after);
    let right = runs_map(runs).insert((run.a, run.b), run.time);
    assert forall|e: (u32, u32)| left.dom().contains(e) <==> right.dom().contains(e) by {
        if left.dom().contains(e) {
            let k = choose|k: int|
                0 <= k < after.len() && (#[trigger] after[k]).a == e.0 && after[k].b == e.1;
            assert(runs_map(runs).dom().contains((runs[k].a, runs[k].b)));
        }
        if right.dom().contains(e) {
            if e == (run.a, run.b) {
                assert(left.dom().contains((after[i].a, after[i].b)));
            } else {
                let k = choose|k: int|
                    0 <= k < runs.len() && (#[trigger] runs[k]).a == e.0 && runs[k].b == e.1;
                assert(left.dom().contains((after[k].a, after[k].b)));
            }
        }
    }
    assert forall|e: (u32, u32)| left.dom().contains(e) implies left[e] == right[e] by {
        let k = choose|k: int|
            0 <= k < after.len() && (#[trigger] after[k]).a == e.0 && after[k].b == e.1;
        assert(left[(after[k].a, after[k].b)] == after[k].time);
        assert(runs_map(runs)[(runs[k].a, runs[k].b)] == runs[k].time);
        if k != i {
            if k < i {
                assert(runs[k].a != runs[i].a || runs[k].b != runs[i].b);
            } else {
                assert(runs[i].a != runs[k].a || runs[i].b != runs[k].b);
            }
        }
    }
    assert(left =~= right);
}

impl View for RailStream {
    type V = RailModel;

    closed spec fn view(&self) -> RailModel {
        RailModel {
            trip: self.trip@,
            rail: self.rail,
            prev: self.prev,
            edges: runs_map(self.runs@),
        }
    }
}

impl Ranked for Run {
    open spec fn ranks_before(&self, other: &Run) -> bool {
        self.a < other.a || (self.a == other.a && self.b < other.b)
    }

    proof fn lemma_ranking(a: &Run, b: &Run, c: &Run) {
    }

    fn is_before(&self, other: &Run) -> bool {
        self.a < other.a || (self.a == other.a && self.b < other.b)
    }
}

impl RailStream {
    /// The pairs of the list are distinct, and the map finds each of them.
    pub closed spec fn wf(&self) -> bool {
        &&& pairs_distinct(self.runs@)
        &&& forall|code: u64| #[trigger]
            self.places@.dom().contains(code) ==> self.places@[code] < self.runs@.len() && (
            self.runs@[self.places@[code] as int].a,
            self.runs@[self.places@[code] as int].b,
            ) == code_edge(code)
        &&& forall|i: int|
            0 <= i < self.runs@.len() ==> self.places@.dom().contains(
                edge_code(((#[trigger] self.runs@[i]).a, self.runs@[i].b)),
            )
    }

    pub fn new() -> (r: RailStream)
        ensures
            r.wf(),
            r@ == no_rail_rows(),
    {
        RailStream {
            trip: String::new(),
            rail: false,
            prev: None,
            places: HashMap::new(),
            runs: Vec::new(),
        }
    }

    /// Notes a run between two stations.
    #[verifier::spinoff_prover]
    #[verifier::rlimit(40)]
    fn note(&mut self, from: u32, to: u32, run: Option<u64>)
        requires
            old(self).wf(),
        ensures
            final(self).wf(),
            final(self).trip == old(self).trip,
            final(self).rail == old(self).rail,
            final(self).prev == old(self).prev,
            final(self)@.edges == with_run(old(self)@.edges, edge_between(from, to), run),
    {
        let (a, b) = if from < to {
            (from, to)
        } else {
            (to, from)
        };
        let code: u64 = a as u64 * 0x1_0000_0000 + b as u64;
        let ghost runs = self.runs@;
        let ghost places = self.places@;
        assert(code == edge_code((a, b)));
        assert(code_edge(code) == (a, b));
        proof {
            lemma_runs_map(runs);
        }
        match self.places.get(&code) {
            Some(at) => {
                let i: usize = *at;
                let known: Option<u64> = self.runs[i].time;
                let better = match (known, run) {
                    (Some(k), Some(r)) => if r < k {
                        run
                    } else {
                        known
                    },
                    (None, _) => run,
                    (_, None) => known,
                };
                proof {
                    lemma_runs_update(runs, i as int, Run { a, b, time: better });
                    assert(runs_map(runs).dom().contains((runs[i as int].a, runs[i as int].b)));
                }
                self.runs.set(i, Run { a, b, time: better });
                proof {
                    assert forall|k: int| 0 <= k < self.runs@.len() implies self.places@.dom().contains(
                        edge_code(((#[trigger] self.runs@[k]).a, self.runs@[k].b)),
                    ) by {
                        assert(places.dom().contains(edge_code((runs[k].a, runs[k].b))));
                    }
                }
            },
            None => {
                let i: usize = self.runs.len();
                self.places.insert(code, i);
                self.runs.push(Run { a, b, time: run });
                proof {
                    assert(self.runs@.drop_last() =~= runs);
                    assert forall|x: int| 0 <= x < runs.len() implies (#[trigger] runs[x]).a != a
                        || runs[x].b != b by {
                        assert(places.dom().contains(edge_code((runs[x].a, runs[x].b))));
                    }
                    if runs_map(runs).dom().contains((a, b)) {
                        let x = choose|x: int|
                            0 <= x < runs.len() && (#[trigger] runs[x]).a == a && runs[x].b == b;
                        assert(false);
                    }
                    assert forall|k: int| 0 <= k < self.runs@.len() implies self.places@.dom().contains(
                        edge_code(((#[trigger] self.runs@[k]).a, self.runs@[k].b)),
                    ) by {
                        if k < runs.len() {
                            assert(places.dom().contains(edge_code((runs[k].a, runs[k].b))));
                        }
                    }
                }
            },
        }
    }

    /// Takes in one row. A train leaves at its departure, or else at its arrival.
    pub fn row(
        &mut self,
        trip: &str,
        stop: &str,
        seq: &str,
        arrival: Clock,
        departure: Clock,
        index: &StopIndex,
        trips: &IdSet,
    )
        requires
            old(self).wf(),
            forall|id: Seq<char>| #[trigger]
                index@.dom().contains(id) ==> index@[id] <= u32::MAX,
        ensures
            final(self).wf(),
            final(self)@ == after_rail_row(
                old(self)@,
                rail_row_of(trip@, stop@, seq@, arrival, departure, index@, trips@),
            ),
    {
        if !same(self.trip.as_str(), trip) {
            self.trip = trip.to_owned();
            self.rail = trips.contains(trip);
            self.prev = None;
        }
        if !self.rail {
            return ;
        }
        let number: u32 = match parse_u32(trim(seq)) {
            Some(number) => number,
            None => {
                return ;
            },
        };
        let node: Option<u32> = match index.get(stop) {
            Some(station) => Some(station as u32),
            None => None,
        };
        if let (Some((last, from, left)), Some(to)) = (self.prev, node) {
            if last < u32::MAX && number == last + 1 && from != to {
                let run: Option<u64> = match (left, arrival) {
                    (Clock::At(p), Clock::At(a)) => if a > p {
                        Some((a as i128 - p as i128) as u64)
                    } else {
                        None
                    },
                    _ => None,
                };
                self.note(from, to, run);
            }
        }
        let clock = match departure {
            Clock::Blank => arrival,
            _ => departure,
        };
        self.prev = match node {
            Some(n) => Some((number, n, clock)),
            None => None,
        };
    }

    /// The edges found with their fastest runs, by station pair.
    pub fn finish(&self) -> (r: Vec<Run>)
        requires
            self.wf(),
        ensures
            runs_increase(r@),
            forall|i: int, j: int|
                #![trigger r@[i], r@[j]]
                0 <= i < j < r@.len() ==> r@[i].a <= r@[j].a && (r@[i].a == r@[j].a ==> r@[i].b
                    < r@[j].b),
            forall|i: int|
                0 <= i < r@.len() ==> self@.edges.dom().contains(((#[trigger] r@[i]).a, r@[i].b))
                    && self@.edges[(r@[i].a, r@[i].b)] == r@[i].time,
            forall|e: (u32, u32)| #[trigger]
                self@.edges.dom().contains(e) ==> exists|i: int|
                    0 <= i < r@.len() && (#[trigger] r@[i]).a == e.0 && r@[i].b == e.1,
    {
        let order = sort_order(&self.runs);
        let mut out: Vec<Run> = Vec::new();
        let mut k: usize = 0;
        while k < order.len()
            invariant
                k <= order@.len(),
                is_order(self.runs@, order@),
                out@ == taken(self.runs@, order@).take(k as int),
            decreases order@.len() - k,
        {
            out.push(self.runs[order[k]]);
            assert(out@ =~= taken(self.runs@, order@).take(k + 1));
            k = k + 1;
        }
        proof {
            let runs = self.runs@;
            assert(out@ =~= taken(runs, order@));
            lemma_runs_map(runs);
            assert forall|i: int, j: int|
                #![trigger out@[i], out@[j]]
                0 <= i < j < out@.len() implies out@[i].a < out@[j].a || (out@[i].a == out@[j].a
                && out@[i].b < out@[j].b) by {
                assert(crate::sorting::placed_before(runs, order@[i] as int, order@[j] as int));
                assert(order@[i] != order@[j]);
                let x = order@[i] as int;
                let y = order@[j] as int;
                if x < y {
                    assert(runs[x].a != runs[y].a || runs[x].b != runs[y].b);
                } else {
                    assert(runs[y].a != runs[x].a || runs[y].b != runs[x].b);
                }
            }
            assert forall|i: int| 0 <= i < out@.len() implies self@.edges.dom().contains(
                ((#[trigger] out@[i]).a, out@[i].b),
            ) && self@.edges[(out@[i].a, out@[i].b)] == out@[i].time by {
                assert(out@[i] == runs[order@[i] as int]);
            }
            assert forall|e: (u32, u32)| #[trigger] self@.edges.dom().contains(e) implies exists|
                i: int,
            |
                0 <= i < out@.len() && (#[trigger] out@[i]).a == e.0 && out@[i].b == e.1 by {
                let x = choose|x: int|
                    0 <= x < runs.len() && (#[trigger] runs[x]).a == e.0 && runs[x].b == e.1;
                crate::sorting::lemma_order_complete(runs, order@, x);
                let i = choose|i: int| 0 <= i < order@.len() && #[trigger] order@[i] == x;
                assert(out@[i] == runs[x]);
            }
        }
        out
    }
}

/// Whether runs come by station pair, none twice.
pub open spec fn runs_increase(s: Seq<Run>) -> bool {
    forall|i: int, j: int|
        #![trigger s[i], s[j]]
        0 <= i < j < s.len() ==> s[i].a < s[j].a || (s[i].a == s[j].a && s[i].b < s[j].b)
}

/// Taking in a row never slows an edge down: the fastest run only gets faster.
pub proof fn law_runs_only_get_faster(m: RailModel, row: RailRow, edge: (u32, u32))
    requires
        m.edges.dom().contains(edge),
        m.edges[edge] is Some,
    ensures
        after_rail_row(m, row).edges.dom().contains(edge),
        after_rail_row(m, row).edges[edge] is Some,
        after_rail_row(m, row).edges[edge]->0 <= m.edges[edge]->0,
{
}

// --------------------------------------------------------- the rail graph

/// The rail graph: per station its neighbours, how far they are and how long a
/// train takes, each list parallel to the others.
#[derive(Debug)]
pub struct NatGraph<M, S> {
    pub adjacency: Vec<Vec<u32>>,
    /// Length of each adjacency entry: the great-circle one for a train, nothing for
    /// a walk, which pays no tariff kilometres.
    pub metres: Vec<Vec<M>>,
    /// Fastest observed run time over each adjacency entry.
    ///
    /// Fares follow the route a traveller actually takes, and that is the fast
    /// one, not the geographically shortest. The minimum over every scheduled run
    /// is the express time where an express exists.
    pub seconds: Vec<Vec<S>>,
}

/// Whether some run touches a station.
pub open spec fn touched(runs: Seq<Run>, station: int) -> bool {
    exists|i: int| 0 <= i < runs.len() && ((#[trigger] runs[i]).a == station || runs[i].b == station)
}

/// How many of the first `k` stations a run touches.
pub open spec fn touched_count(runs: Seq<Run>, k: nat) -> nat
    decreases k,
{
    if k == 0 {
        0
    } else {
        touched_count(runs, (k - 1) as nat) + if touched(runs, k - 1) {
            1nat
        } else {
            0
        }
    }
}

/// The stations that a rail service touches, numbered without gaps.
pub struct Served<C> {
    pub stations: Vec<NatStation<C>>,
    /// The new number of each old station, where it is served.
    pub dense: Vec<Option<u32>>,
}

/// Whether `served` holds exactly the touched stations, in their order.
pub open spec fn keeps_touched<C>(
    stations: Seq<NatStation<C>>,
    runs: Seq<Run>,
    served: Served<C>,
) -> bool {
    &&& served.stations@.len() == touched_count(runs, stations.len())
    &&& served.dense@.len() == stations.len()
    &&& forall|i: int|
        #![trigger served.dense@[i]]
        0 <= i < stations.len() ==> if touched(runs, i) {
            &&& served.dense@[i] == Some(touched_count(runs, i as nat) as u32)
            &&& touched_count(runs, i as nat) < served.stations@.len()
            &&& served.stations@[touched_count(runs, i as nat) as int]@ == stations[i]@
        } else {
            served.dense@[i] is None
        }
}

/// Keeps only stations that a rail service actually touches.
pub fn keep_served<C: Copy>(stations: &Vec<NatStation<C>>, runs: &Vec<Run>) -> (r: Served<C>)
    requires
        stations@.len() <= u32::MAX,
        forall|i: int|
            0 <= i < runs@.len() ==> (#[trigger] runs@[i]).a < stations@.len() && runs@[i].b
                < stations@.len(),
    ensures
        keeps_touched(stations@, runs@, r),
{
    let n: usize = stations.len();
    let mut used: Vec<bool> = Vec::new();
    while used.len() < n
        invariant
            used@.len() <= n,
            forall|x: int| 0 <= x < used@.len() ==> !#[trigger] used@[x],
        decreases n - used@.len(),
    {
        used.push(false);
    }
    let mut i: usize = 0;
    while i < runs.len()
        invariant
            n == stations@.len(),
            used@.len() == n,
            i <= runs@.len(),
            forall|k: int|
                0 <= k < runs@.len() ==> (#[trigger] runs@[k]).a < n && runs@[k].b < n,
            forall|x: int|
                0 <= x < n ==> (#[trigger] used@[x] <==> touched(runs@.take(i as int), x)),
        decreases runs@.len() - i,
    {
        let ghost part = runs@.take(i as int);
        let ghost head = runs@.take(i + 1);
        let ghost old_used = used@;
        let run = runs[i];
        used.set(run.a as usize, true);
        used.set(run.b as usize, true);
        proof {
            assert forall|x: int| 0 <= x < n implies (#[trigger] used@[x] <==> touched(head, x)) by {
                assert(old_used[x] <==> touched(part, x));
                if touched(part, x) {
                    let k = choose|k: int|
                        0 <= k < part.len() && ((#[trigger] part[k]).a == x || part[k].b == x);
                    assert(head[k] == part[k]);
                }
                if x == run.a || x == run.b {
                    assert(head[i as int] == run);
                }
                if touched(head, x) {
                    let k = choose|k: int|
                        0 <= k < head.len() && ((#[trigger] head[k]).a == x || head[k].b == x);
                    if k < i {
                        assert(part[k] == head[k]);
                    }
                }
            }
        }
        i = i + 1;
    }
    assert(runs@.take(i as int) =~= runs@);
    let mut kept: Vec<NatStation<C>> = Vec::new();
    let mut dense: Vec<Option<u32>> = Vec::new();
    let mut k: usize = 0;
    while k < n
        invariant
            n == stations@.len(),
            n <= u32::MAX,
            used@.len() == n,
            k <= n,
            forall|x: int| 0 <= x < n ==> (#[trigger] used@[x] <==> touched(runs@, x)),
            kept@.len() == touched_count(runs@, k as nat),
            kept@.len() <= k,
            dense@.len() == k,
            forall|x: int|
                #![trigger dense@[x]]
                0 <= x < k ==> if touched(runs@, x) {
                    &&& dense@[x] == Some(touched_count(runs@, x as nat) as u32)
                    &&& touched_count(runs@, x as nat) < kept@.len()
                    &&& kept@[touched_count(runs@, x as nat) as int]@ == stations@[x]@
                } else {
                    dense@[x] is None
                },
        decreases n - k,
    {
        if used[k] {
            dense.push(Some(kept.len() as u32));
            let s = &stations[k];
            kept.push(
                NatStation {
                    id: s.id.clone(),
                    name: s.name.clone(),
                    lon: s.lon,
                    lat: s.lat,
                    uic: s.uic.clone(),
                },
            );
        } else {
            dense.push(None);
        }
        k = k + 1;
    }
    Served { stations: kept, dense }
}

/// A run with the new numbers of its stations, where both are kept.
pub open spec fn run_renumbered(dense: Seq<Option<u32>>, run: Run) -> Option<Run> {
    match (renumbered(dense, run.a), renumbered(dense, run.b)) {
        (Some(a), Some(b)) => Some(Run { a, b, time: run.time }),
        _ => None,
    }
}

/// The runs both of whose stations are kept, in order, with their new numbers.
pub open spec fn renumbered_runs(dense: Seq<Option<u32>>, runs: Seq<Run>) -> Seq<Run>
    decreases runs.len(),
{
    if runs.len() == 0 {
        Seq::empty()
    } else {
        let rest = renumbered_runs(dense, runs.drop_last());
        match run_renumbered(dense, runs.last()) {
            Some(run) => rest.push(run),
            None => rest,
        }
    }
}

/// Renumbers runs; one with a station that is not kept is left out.
pub fn renumber_runs(dense: &Vec<Option<u32>>, runs: &Vec<Run>) -> (r: Vec<Run>)
    ensures
        r@ == renumbered_runs(dense@, runs@),
{
    let mut out: Vec<Run> = Vec::new();
    let mut i: usize = 0;
    while i < runs.len()
        invariant
            i <= runs@.len(),
            out@ == renumbered_runs(dense@, runs@.take(i as int)),
        decreases runs@.len() - i,
    {
        assert(runs@.take(i + 1).drop_last() =~= runs@.take(i as int));
        let run = runs[i];
        if let (Some(a), Some(b)) = (new_number(dense, run.a), new_number(dense, run.b)) {
            out.push(Run { a, b, time: run.time });
        }
        i = i + 1;
    }
    assert(runs@.take(i as int) =~= runs@);
    out
}

/// Stations keep their order: of two that a run touches, the earlier one has the
/// smaller number.
proof fn lemma_touched_grows(runs: Seq<Run>, j: nat, k: nat)
    requires
        j <= k,
    ensures
        touched_count(runs, j) <= touched_count(runs, k),
        j < k && touched(runs, j as int) ==> touched_count(runs, j) < touched_count(runs, k),
    decreases k,
{
    if j < k {
        lemma_touched_grows(runs, j, (k - 1) as nat);
    }
}

/// Leaving out stations without trains loses no run and keeps their order: every run
/// between known stations is renumbered, between the same two stations, with the
/// same time, within the stations that are kept, and from the smaller number to the
/// larger where it was so before.
pub proof fn law_served_stations_keep_their_runs<C>(
    stations: Seq<NatStation<C>>,
    runs: Seq<Run>,
    served: Served<C>,
)
    requires
        stations.len() <= u32::MAX,
        forall|i: int|
            0 <= i < runs.len() ==> (#[trigger] runs[i]).a < stations.len() && runs[i].b
                < stations.len(),
        keeps_touched(stations, runs, served),
    ensures
        renumbered_runs(served.dense@, runs).len() == runs.len(),
        forall|i: int|
            0 <= i < runs.len() ==> {
                let new = #[trigger] renumbered_runs(served.dense@, runs)[i];
                &&& new.a < served.stations@.len()
                &&& new.b < served.stations@.len()
                &&& served.stations@[new.a as int]@ == stations[runs[i].a as int]@
                &&& served.stations@[new.b as int]@ == stations[runs[i].b as int]@
                &&& new.time == runs[i].time
                &&& runs[i].a < runs[i].b ==> new.a < new.b
            },
{
    let dense = served.dense@;
    assert forall|i: int| 0 <= i < runs.len() implies #[trigger] run_renumbered(
        dense,
        runs[i],
    ) is Some by {
        lemma_run_kept(stations, runs, served, i);
    }
    lemma_all_renumbered(dense, runs);
    assert forall|i: int| 0 <= i < runs.len() implies {
        let new = #[trigger] renumbered_runs(dense, runs)[i];
        &&& new.a < served.stations@.len()
        &&& new.b < served.stations@.len()
        &&& served.stations@[new.a as int]@ == stations[runs[i].a as int]@
        &&& served.stations@[new.b as int]@ == stations[runs[i].b as int]@
        &&& new.time == runs[i].time
        &&& runs[i].a < runs[i].b ==> new.a < new.b
    } by {
        lemma_run_kept(stations, runs, served, i);
    }
}

/// What becomes of one run when its stations are kept.
proof fn lemma_run_kept<C>(
    stations: Seq<NatStation<C>>,
    runs: Seq<Run>,
    served: Served<C>,
    i: int,
)
    requires
        stations.len() <= u32::MAX,
        0 <= i < runs.len(),
        runs[i].a < stations.len(),
        runs[i].b < stations.len(),
        keeps_touched(stations, runs, served),
    ensures
        run_renumbered(served.dense@, runs[i]) matches Some(new) && {
            &&& new.a < served.stations@.len()
            &&& new.b < served.stations@.len()
            &&& served.stations@[new.a as int]@ == stations[runs[i].a as int]@
            &&& served.stations@[new.b as int]@ == stations[runs[i].b as int]@
            &&& new.time == runs[i].time
            &&& runs[i].a < runs[i].b ==> new.a < new.b
        },
{
    let a = runs[i].a;
    let b = runs[i].b;
    assert(touched(runs, a as int));
    assert(touched(runs, b as int));
    lemma_touched_bound(runs, a as nat);
    lemma_touched_bound(runs, b as nat);
    assert(served.dense@[a as int] == Some(touched_count(runs, a as nat) as u32));
    assert(served.dense@[b as int] == Some(touched_count(runs, b as nat) as u32));
    if a < b {
        lemma_touched_grows(runs, a as nat, b as nat);
    }
}

proof fn lemma_touched_bound(runs: Seq<Run>, k: nat)
    ensures
        touched_count(runs, k) <= k,
    decreases k,
{
    if k > 0 {
        lemma_touched_bound(runs, (k - 1) as nat);
    }
}

/// Where every run can be renumbered, none is left out.
proof fn lemma_all_renumbered(dense: Seq<Option<u32>>, runs: Seq<Run>)
    requires
        forall|i: int| 0 <= i < runs.len() ==> #[trigger] run_renumbered(dense, runs[i]) is Some,
    ensures
        renumbered_runs(dense, runs).len() == runs.len(),
        forall|i: int|
            0 <= i < runs.len() ==> run_renumbered(dense, runs[i]) == Some(
                #[trigger] renumbered_runs(dense, runs)[i],
            ),
    decreases runs.len(),
{
    if runs.len() > 0 {
        let front = runs.drop_last();
        assert forall|i: int| 0 <= i < front.len() implies #[trigger] run_renumbered(
            dense,
            front[i],
        ) is Some by {
            assert(run_renumbered(dense, runs[i]) is Some);
        }
        lemma_all_renumbered(dense, front);
        assert(run_renumbered(dense, runs[runs.len() - 1]) is Some);
        assert forall|i: int| 0 <= i < runs.len() implies run_renumbered(dense, runs[i]) == Some(
            #[trigger] renumbered_runs(dense, runs)[i],
        ) by {
            if i < front.len() {
                assert(front[i] == runs[i]);
                assert(renumbered_runs(dense, front)[i] == renumbered_runs(dense, runs)[i]);
            }
        }
    }
}

/// A link of the rail graph.
#[derive(Debug, Clone, Copy)]
pub struct RailLink<M, S> {
    pub to: u32,
    pub metres: M,
    pub seconds: S,
}

/// The links with one more edge, entered at both its ends.
pub open spec fn with_edge<M, S>(
    links: Seq<Seq<RailLink<M, S>>>,
    u: u32,
    v: u32,
    metres: M,
    seconds: S,
) -> Seq<Seq<RailLink<M, S>>> {
    let there = links.update(u as int, links[u as int].push(RailLink { to: v, metres, seconds }));
    there.update(v as int, there[v as int].push(RailLink { to: u, metres, seconds }))
}

/// Whether `u` has a link to `v`.
pub open spec fn links_to<M, S>(links: Seq<Seq<RailLink<M, S>>>, u: u32, v: u32) -> bool {
    exists|i: int| 0 <= i < links[u as int].len() && (#[trigger] links[u as int][i]).to == v
}

/// A railway edge: two stations, how far apart and how long by train.
#[derive(Debug, Clone, Copy)]
pub struct RailEdge<M, S> {
    pub u: u32,
    pub v: u32,
    pub metres: M,
    pub seconds: S,
}

/// How far apart, in metres, two stations may be to be joined by a walk.
pub const WALK_METRES: u32 = 400;

/// How long such a walk takes, in seconds.
pub const WALK_SECONDS: u32 = 300;

/// The links that the first `k` edges make between `n` stations.
pub open spec fn train_links<M, S>(n: nat, edges: Seq<RailEdge<M, S>>, k: nat) -> Seq<
    Seq<RailLink<M, S>>,
>
    decreases k,
{
    if k == 0 {
        Seq::new(n, |u: int| Seq::empty())
    } else {
        let e = edges[k - 1];
        with_edge(train_links(n, edges, (k - 1) as nat), e.u, e.v, e.metres, e.seconds)
    }
}

/// The links with a walk between each of the first `k` near pairs that no link
/// joins yet. Walking pays no tariff kilometres but does cost time: a walk takes
/// `walk` and is as long as `free` says.
pub open spec fn walk_links<M, S>(
    trains: Seq<Seq<RailLink<M, S>>>,
    near: Seq<(u32, u32)>,
    walk: S,
    free: M,
    k: nat,
) -> Seq<Seq<RailLink<M, S>>>
    decreases k,
{
    if k == 0 {
        trains
    } else {
        let rest = walk_links(trains, near, walk, free, (k - 1) as nat);
        let p = near[k - 1];
        if links_to(rest, p.0, p.1) {
            rest
        } else {
            with_edge(rest, p.0, p.1, free, walk)
        }
    }
}

/// How many walks the first `k` near pairs add.
pub open spec fn walk_count<M, S>(
    trains: Seq<Seq<RailLink<M, S>>>,
    near: Seq<(u32, u32)>,
    walk: S,
    free: M,
    k: nat,
) -> nat
    decreases k,
{
    if k == 0 {
        0
    } else {
        let p = near[k - 1];
        walk_count(trains, near, walk, free, (k - 1) as nat) + if links_to(
            walk_links(trains, near, walk, free, (k - 1) as nat),
            p.0,
            p.1,
        ) {
            0nat
        } else {
            1
        }
    }
}

/// Whether a graph lists these links.
pub open spec fn lists_links<M, S>(g: NatGraph<M, S>, links: Seq<Seq<RailLink<M, S>>>) -> bool {
    &&& g.adjacency@.len() == links.len()
    &&& g.metres@.len() == links.len()
    &&& g.seconds@.len() == links.len()
    &&& forall|u: int|
        0 <= u < links.len() ==> {
            &&& (#[trigger] g.adjacency@[u])@ == Seq::new(links[u].len(), |i: int| links[u][i].to)
            &&& g.metres@[u]@ == Seq::new(links[u].len(), |i: int| links[u][i].metres)
            &&& g.seconds@[u]@ == Seq::new(links[u].len(), |i: int| links[u][i].seconds)
        }
}

spec fn link_rows<M, S>(v: Seq<Vec<RailLink<M, S>>>) -> Seq<Seq<RailLink<M, S>>> {
    Seq::new(v.len(), |i: int| v[i]@)
}

/// Adds one link to a row.
fn add_link<M: Copy, S: Copy>(
    links: &mut Vec<Vec<RailLink<M, S>>>,
    u: u32,
    link: RailLink<M, S>,
)
    requires
        u < old(links)@.len(),
    ensures
        link_rows(final(links)@) == link_rows(old(links)@).update(
            u as int,
            link_rows(old(links)@)[u as int].push(link),
        ),
{
    let ghost before = links@;
    let mut row: Vec<RailLink<M, S>> = Vec::new();
    std::mem::swap(&mut row, &mut links[u as usize]);
    let ghost kept = row@;
    row.push(link);
    links.set(u as usize, row);
    assert(link_rows(links@) =~= link_rows(before).update(u as int, kept.push(link)));
}

fn add_edge<M: Copy, S: Copy>(
    links: &mut Vec<Vec<RailLink<M, S>>>,
    u: u32,
    v: u32,
    metres: M,
    seconds: S,
)
    requires
        u < old(links)@.len(),
        v < old(links)@.len(),
    ensures
        link_rows(final(links)@) == with_edge(link_rows(old(links)@), u, v, metres, seconds),
        final(links)@.len() == old(links)@.len(),
{
    let ghost n = links@.len();
    add_link(links, u, RailLink { to: v, metres, seconds });
    assert(link_rows(links@).len() == n);
    add_link(links, v, RailLink { to: u, metres, seconds });
    assert(link_rows(links@).len() == n);
}

fn has_link<M: Copy, S: Copy>(links: &Vec<Vec<RailLink<M, S>>>, u: u32, v: u32) -> (r: bool)
    requires
        u < links@.len(),
    ensures
        r == links_to(link_rows(links@), u, v),
{
    let row = &links[u as usize];
    assert(link_rows(links@)[u as int] == row@);
    let mut i: usize = 0;
    while i < row.len()
        invariant
            i <= row@.len(),
            link_rows(links@)[u as int] == row@,
            forall|k: int| 0 <= k < i ==> (#[trigger] row@[k]).to != v,
        decreases row@.len() - i,
    {
        if row[i].to == v {
            assert(link_rows(links@)[u as int][i as int].to == v);
            return true;
        }
        i = i + 1;
    }
    false
}

/// Builds the rail graph of `n` stations: the edges of the trains, and a walk
/// between stations that sit on top of one another but share no service, without
/// which a line could hang off the network entirely. A walk costs time but no
/// tariff kilometres, so its length is `free` however far apart the stations are.
/// Returns the number of walks too.
pub fn rail_graph<M: Copy, S: Copy>(
    n: usize,
    edges: &Vec<RailEdge<M, S>>,
    near: &Vec<(u32, u32)>,
    walk: S,
    free: M,
) -> (r: (NatGraph<M, S>, usize))
    requires
        forall|i: int|
            0 <= i < edges@.len() ==> (#[trigger] edges@[i]).u < n && edges@[i].v < n,
        forall|i: int| 0 <= i < near@.len() ==> (#[trigger] near@[i]).0 < n && near@[i].1 < n,
    ensures
        lists_links(
            r.0,
            walk_links(
                train_links(n as nat, edges@, edges@.len()),
                near@,
                walk,
                free,
                near@.len(),
            ),
        ),
        r.1 == walk_count(
            train_links(n as nat, edges@, edges@.len()),
            near@,
            walk,
            free,
            near@.len(),
        ),
{
    let mut links: Vec<Vec<RailLink<M, S>>> = Vec::new();
    while links.len() < n
        invariant
            links@.len() <= n,
            forall|u: int| 0 <= u < links@.len() ==> (#[trigger] links@[u])@.len() == 0,
        decreases n - links@.len(),
    {
        links.push(Vec::new());
    }
    assert(link_rows(links@) =~= train_links(n as nat, edges@, 0)) by {
        assert forall|u: int| 0 <= u < n implies #[trigger] link_rows(links@)[u] == Seq::<
            RailLink<M, S>,
        >::empty() by {
            assert(links@[u]@ =~= Seq::empty());
        }
    }
    let mut i: usize = 0;
    while i < edges.len()
        invariant
            i <= edges@.len(),
            forall|k: int|
                0 <= k < edges@.len() ==> (#[trigger] edges@[k]).u < n && edges@[k].v < n,
            links@.len() == n,
            link_rows(links@) == train_links(n as nat, edges@, i as nat),
        decreases edges@.len() - i,
    {
        let e = edges[i];
        add_edge(&mut links, e.u, e.v, e.metres, e.seconds);
        i = i + 1;
    }
    let ghost trains = train_links(n as nat, edges@, edges@.len());
    let mut walks: usize = 0;
    let mut k: usize = 0;
    while k < near.len()
        invariant
            k <= near@.len(),
            forall|j: int| 0 <= j < near@.len() ==> (#[trigger] near@[j]).0 < n && near@[j].1 < n,
            links@.len() == n,
            link_rows(links@) == walk_links(trains, near@, walk, free, k as nat),
            walks == walk_count(trains, near@, walk, free, k as nat),
            walks <= k,
        decreases near@.len() - k,
    {
        let p = near[k];
        if !has_link(&links, p.0, p.1) {
            walks = walks + 1;
            add_edge(&mut links, p.0, p.1, free, walk);
        }
        k = k + 1;
    }
    let g = unzip(&links);
    (g, walks)
}

fn unzip<M: Copy, S: Copy>(links: &Vec<Vec<RailLink<M, S>>>) -> (g: NatGraph<M, S>)
    ensures
        lists_links(g, link_rows(links@)),
{
    let ghost rows = link_rows(links@);
    let mut adjacency: Vec<Vec<u32>> = Vec::new();
    let mut metres: Vec<Vec<M>> = Vec::new();
    let mut seconds: Vec<Vec<S>> = Vec::new();
    let mut u: usize = 0;
    while u < links.len()
        invariant
            rows == link_rows(links@),
            u <= links@.len(),
            adjacency@.len() == u,
            metres@.len() == u,
            seconds@.len() == u,
            forall|x: int|
                0 <= x < u ==> {
                    &&& (#[trigger] adjacency@[x])@ == Seq::new(
                        rows[x].len(),
                        |i: int| rows[x][i].to,
                    )
                    &&& metres@[x]@ == Seq::new(rows[x].len(), |i: int| rows[x][i].metres)
                    &&& seconds@[x]@ == Seq::new(rows[x].len(), |i: int| rows[x][i].seconds)
                },
        decreases links@.len() - u,
    {
        let row = &links[u];
        let mut a: Vec<u32> = Vec::new();
        let mut m: Vec<M> = Vec::new();
        let mut s: Vec<S> = Vec::new();
        let mut i: usize = 0;
        while i < row.len()
            invariant
                i <= row@.len(),
                a@ == Seq::new(i as nat, |k: int| row@[k].to),
                m@ == Seq::new(i as nat, |k: int| row@[k].metres),
                s@ == Seq::new(i as nat, |k: int| row@[k].seconds),
            decreases row@.len() - i,
        {
            let link = row[i];
            a.push(link.to);
            m.push(link.metres);
            s.push(link.seconds);
            i = i + 1;
            assert(a@ =~= Seq::new(i as nat, |k: int| row@[k].to));
            assert(m@ =~= Seq::new(i as nat, |k: int| row@[k].metres));
            assert(s@ =~= Seq::new(i as nat, |k: int| row@[k].seconds));
        }
        assert(rows[u as int] == row@);
        adjacency.push(a);
        metres.push(m);
        seconds.push(s);
        u = u + 1;
    }
    NatGraph { adjacency, metres, seconds }
}

// ----------------------------------------------------------- connectivity

/// Whether a list holds the sizes of these components.
pub open spec fn sizes_of(comps: Seq<Seq<u32>>, sizes: Seq<usize>) -> bool {
    &&& sizes.len() == comps.len()
    &&& forall|c: int| 0 <= c < comps.len() ==> #[trigger] sizes[c] == comps[c].len()
}

/// The sizes of the connected parts of a rail graph, the largest first.
pub fn component_sizes(adjacency: &Vec<Vec<u32>>) -> (r: Vec<usize>)
    requires
        adjacency@.len() <= u32::MAX,
        rows_mutual(nested(adjacency@)),
    ensures
        exists|comps: Seq<Seq<u32>>|
            #[trigger] is_partition(row_graph(nested(adjacency@)), comps) && sizes_of(comps, r@),
{
    let comps = row_components(adjacency);
    let mut out: Vec<usize> = Vec::new();
    let mut c: usize = 0;
    while c < comps.len()
        invariant
            c <= comps@.len(),
            out@.len() == c,
            forall|d: int| 0 <= d < c ==> #[trigger] out@[d] == nested(comps@)[d].len(),
        decreases comps@.len() - c,
    {
        out.push(comps[c].len());
        c = c + 1;
    }
    proof {
        assert(sizes_of(nested(comps@), out@));
        assert(is_partition(row_graph(nested(adjacency@)), nested(comps@)));
    }
    out
}

// ------------------------------------------- what becomes of each rail stop

proof fn lemma_rail_parents<C>(stops: Seq<PendingStop<C>>, k: nat)
    requires
        k <= stops.len() <= usize::MAX,
        forall|i: int, j: int|
            #![trigger stops[i], stops[j]]
            0 <= i < j < stops.len() ==> stops[i].id@ != stops[j].id@,
    ensures
        ({
            let c = nat_parents(stops, k);
            &&& c.stations.len() <= k
            &&& forall|j: int|
                0 <= j < k && (#[trigger] stops[j]).parent@.len() == 0 ==> {
                    &&& c.index.dom().contains(stops[j].id@)
                    &&& c.index[stops[j].id@] < c.stations.len()
                    &&& c.stations[c.index[stops[j].id@] as int] == nat_station_of(stops[j])
                }
            &&& forall|id: Seq<char>| #[trigger]
                c.index.dom().contains(id) ==> c.index[id] < c.stations.len() && exists|j: int|
                    0 <= j < k && (#[trigger] stops[j]).id@ == id
        }),
    decreases k,
{
    if k > 0 {
        lemma_rail_parents(stops, (k - 1) as nat);
        let before = nat_parents(stops, (k - 1) as nat);
        let c = nat_parents(stops, k);
        assert forall|j: int| 0 <= j < k && (#[trigger] stops[j]).parent@.len() == 0 implies {
            &&& c.index.dom().contains(stops[j].id@)
            &&& c.index[stops[j].id@] < c.stations.len()
            &&& c.stations[c.index[stops[j].id@] as int] == nat_station_of(stops[j])
        } by {
            if j < k - 1 {
                assert(stops[j].id@ != stops[k - 1].id@);
            }
        }
        assert forall|id: Seq<char>| #[trigger] c.index.dom().contains(id) implies c.index[id]
            < c.stations.len() && exists|j: int|
            0 <= j < k && (#[trigger] stops[j]).id@ == id by {
            if before.index.dom().contains(id) {
                let j = choose|j: int| 0 <= j < k - 1 && (#[trigger] stops[j]).id@ == id;
                assert(stops[j].id@ == id);
            } else {
                assert(stops[k - 1].id@ == id);
            }
        }
    }
}

proof fn lemma_rail_ids_apart<C>(stops: Seq<PendingStop<C>>, i: int, j: int)
    requires
        0 <= i < stops.len(),
        0 <= j < stops.len(),
        forall|i: int, j: int|
            #![trigger stops[i], stops[j]]
            0 <= i < j < stops.len() ==> stops[i].id@ != stops[j].id@,
    ensures
        i != j ==> stops[i].id@ != stops[j].id@,
{
    if i < j {
        assert(stops[i].id@ != stops[j].id@);
    } else if j < i {
        assert(stops[j].id@ != stops[i].id@);
    }
}

proof fn lemma_rail_children<C>(stops: Seq<PendingStop<C>>, k: nat)
    requires
        k <= stops.len(),
        2 * stops.len() <= usize::MAX,
        forall|i: int, j: int|
            #![trigger stops[i], stops[j]]
            0 <= i < j < stops.len() ==> stops[i].id@ != stops[j].id@,
    ensures
        ({
            let c = nat_children(stops, k);
            &&& c.stations.len() <= stops.len() + k
            &&& forall|j: int|
                0 <= j < stops.len() && (#[trigger] stops[j]).parent@.len() == 0 ==> {
                    &&& c.index.dom().contains(stops[j].id@)
                    &&& c.index[stops[j].id@] < c.stations.len()
                    &&& c.stations[c.index[stops[j].id@] as int] == nat_station_of(stops[j])
                }
            &&& forall|i: int, j: int|
                #![trigger stops[i], stops[j]]
                0 <= i < k && 0 <= j < stops.len() && stops[i].parent@.len() > 0
                    && stops[i].parent@ == stops[j].id@ && stops[j].parent@.len() == 0 ==> {
                    &&& c.index.dom().contains(stops[i].id@)
                    &&& c.index[stops[i].id@] == c.index[stops[j].id@]
                }
            &&& forall|i: int|
                0 <= i < k && (#[trigger] stops[i]).parent@.len() > 0 && (forall|j: int|
                    0 <= j < stops.len() ==> (#[trigger] stops[j]).id@ != stops[i].parent@) ==> {
                    &&& c.index.dom().contains(stops[i].id@)
                    &&& c.index[stops[i].id@] < c.stations.len()
                    &&& c.stations[c.index[stops[i].id@] as int] == nat_station_of(stops[i])
                }
            &&& forall|id: Seq<char>| #[trigger]
                c.index.dom().contains(id) ==> c.index[id] < c.stations.len() && exists|j: int|
                    0 <= j < stops.len() && (#[trigger] stops[j]).id@ == id
        }),
    decreases k,
{
    if k == 0 {
        lemma_rail_parents(stops, stops.len());
    } else {
        lemma_rail_children(stops, (k - 1) as nat);
        let before = nat_children(stops, (k - 1) as nat);
        let c = nat_children(stops, k);
        let stop = stops[k - 1];
        assert forall|j: int|
            0 <= j < stops.len() && (#[trigger] stops[j]).parent@.len() == 0 implies {
            &&& c.index.dom().contains(stops[j].id@)
            &&& c.index[stops[j].id@] < c.stations.len()
            &&& c.stations[c.index[stops[j].id@] as int] == nat_station_of(stops[j])
        } by {
            if stop.parent@.len() > 0 {
                lemma_rail_ids_apart(stops, j, k - 1);
            }
        }
        assert forall|i: int, j: int|
            #![trigger stops[i], stops[j]]
            0 <= i < k && 0 <= j < stops.len() && stops[i].parent@.len() > 0 && stops[i].parent@
                == stops[j].id@ && stops[j].parent@.len() == 0 implies {
            &&& c.index.dom().contains(stops[i].id@)
            &&& c.index[stops[i].id@] == c.index[stops[j].id@]
        } by {
            if stop.parent@.len() > 0 {
                lemma_rail_ids_apart(stops, j, k - 1);
            }
            if i < k - 1 {
                lemma_rail_ids_apart(stops, i, k - 1);
            }
        }
        assert forall|i: int|
            0 <= i < k && (#[trigger] stops[i]).parent@.len() > 0 && (forall|j: int|
                0 <= j < stops.len() ==> (#[trigger] stops[j]).id@ != stops[i].parent@) implies {
            &&& c.index.dom().contains(stops[i].id@)
            &&& c.index[stops[i].id@] < c.stations.len()
            &&& c.stations[c.index[stops[i].id@] as int] == nat_station_of(stops[i])
        } by {
            if i < k - 1 {
                lemma_rail_ids_apart(stops, i, k - 1);
            } else if before.index.dom().contains(stop.parent@) {
                let j = choose|j: int|
                    0 <= j < stops.len() && (#[trigger] stops[j]).id@ == stop.parent@;
                assert(false);
            }
        }
        assert forall|id: Seq<char>| #[trigger] c.index.dom().contains(id) implies c.index[id]
            < c.stations.len() && exists|j: int|
            0 <= j < stops.len() && (#[trigger] stops[j]).id@ == id by {
            if !before.index.dom().contains(id) {
                assert(stops[k - 1].id@ == id);
            }
        }
    }
}

/// What becomes of the stops of the national feed, their ids being distinct. A stop
/// without a parent is its own station, with its id, name, place and number; a stop
/// whose parent is such a stop belongs to the parent's station; a stop whose parent is
/// not in the feed is its own station.
pub proof fn law_platforms_belong_to_their_station<C>(
    stops: Seq<PendingStop<C>>,
    x: int,
    y: int,
)
    requires
        2 * stops.len() <= usize::MAX,
        0 <= x < stops.len(),
        0 <= y < stops.len(),
        forall|i: int, j: int|
            #![trigger stops[i], stops[j]]
            0 <= i < j < stops.len() ==> stops[i].id@ != stops[j].id@,
    ensures
        ({
            let c = nat_children(stops, stops.len());
            let stop = stops[x];
            let own = {
                let station = c.stations[c.index[stop.id@] as int];
                &&& c.index[stop.id@] < c.stations.len()
                &&& station.id == stop.id@
                &&& station.name == stop.name@
                &&& station.lon == stop.lon
                &&& station.lat == stop.lat
                &&& station.uic == stop.uic@
            };
            &&& stop.parent@.len() == 0 ==> c.index.dom().contains(stop.id@) && own
            &&& stop.parent@.len() > 0 && stop.parent@ == stops[y].id@ && stops[y].parent@.len()
                == 0 ==> c.index.dom().contains(stop.id@) && c.index[stop.id@]
                == c.index[stops[y].id@]
            &&& stop.parent@.len() > 0 && (forall|j: int|
                0 <= j < stops.len() ==> (#[trigger] stops[j]).id@ != stop.parent@)
                ==> c.index.dom().contains(stop.id@) && own
        }),
{
    lemma_rail_children(stops, stops.len());
}

/// What a station is known by.
pub proof fn law_a_station_is_its_fields<C>(s: NatStation<C>)
    ensures
        s@.id == s.id@,
        s@.name == s.name@,
        s@.lon == s.lon,
        s@.lat == s.lat,
        s@.uic == s.uic@,
{
}

// ------------------------------------------- what the rail timetable says

/// The stream after a list of rows.
pub open spec fn rail_streamed(rows: Seq<RailRow>) -> RailModel
    decreases rows.len(),
{
    if rows.len() == 0 {
        no_rail_rows()
    } else {
        after_rail_row(rail_streamed(rows.drop_last()), rows.last())
    }
}

/// Whether row `i` is the last readable row of the rail trip that the rows end in.
spec fn is_last_call(rows: Seq<RailRow>, i: int) -> bool {
    &&& 0 <= i < rows.len()
    &&& rows[i].rail
    &&& rows[i].seq is Some
    &&& forall|k: int| i < k < rows.len() ==> (#[trigger] rows[k]).trip == rows[i].trip
    &&& forall|k: int| i < k < rows.len() ==> (#[trigger] rows[k]).seq is None
}

/// Whether rows name their trips, and tell the same of a trip everywhere.
spec fn trips_agree(rows: Seq<RailRow>) -> bool {
    &&& forall|i: int| 0 <= i < rows.len() ==> (#[trigger] rows[i]).trip.len() > 0
    &&& forall|i: int, j: int|
        #![trigger rows[i], rows[j]]
        0 <= i < rows.len() && 0 <= j < rows.len() && rows[i].trip == rows[j].trip ==> rows[i].rail
            == rows[j].rail
}

spec fn leaves_at(row: RailRow) -> Clock {
    if row.departure is Blank {
        row.arrival
    } else {
        row.departure
    }
}

proof fn lemma_rail_prev(rows: Seq<RailRow>)
    requires
        trips_agree(rows),
    ensures
        rows.len() > 0 ==> rail_streamed(rows).trip == rows.last().trip,
        rows.len() > 0 ==> rail_streamed(rows).rail == rows.last().rail,
        forall|i: int| #[trigger]
            is_last_call(rows, i) ==> rail_streamed(rows).prev == (match rows[i].node {
                Some(node) => Some((rows[i].seq->0, node, leaves_at(rows[i]))),
                None => None::<(u32, u32, Clock)>,
            }),
        rail_streamed(rows).prev is Some && rail_streamed(rows).rail ==> exists|i: int|
            is_last_call(rows, i),
        rows.len() == 0 ==> rail_streamed(rows).prev is None,
    decreases rows.len(),
{
    if rows.len() > 0 {
        let front = rows.drop_last();
        let n = rows.len() - 1;
        assert(trips_agree(front)) by {
            assert forall|i: int| 0 <= i < front.len() implies (#[trigger] front[i]).trip.len()
                > 0 by {
                assert(rows[i] == front[i]);
            }
            assert forall|i: int, j: int|
                #![trigger front[i], front[j]]
                0 <= i < front.len() && 0 <= j < front.len() && front[i].trip
                    == front[j].trip implies front[i].rail == front[j].rail by {
                assert(rows[i] == front[i] && rows[j] == front[j]);
            }
        }
        lemma_rail_prev(front);
        let row = rows.last();
        let m = rail_streamed(front);
        assert(rows[n] == row);
        if n > 0 {
            assert(front.last() == rows[n - 1]);
        } else {
            assert(m.trip != row.trip);
        }
        assert forall|i: int| #[trigger] is_last_call(rows, i) implies rail_streamed(rows).prev == (
        match rows[i].node {
            Some(node) => Some((rows[i].seq->0, node, leaves_at(rows[i]))),
            None => None::<(u32, u32, Clock)>,
        }) by {
            if i < n {
                assert(rows[n].seq is None);
                assert(rows[n].trip == rows[i].trip);
                assert(is_last_call(front, i)) by {
                    assert forall|k: int| i < k < front.len() implies (#[trigger] front[k]).trip
                        == front[i].trip && front[k].seq is None by {
                        assert(rows[k] == front[k]);
                    }
                }
                if i < n - 1 {
                    assert(rows[n - 1].trip == rows[i].trip);
                }
            }
        }
        if rail_streamed(rows).prev is Some && rail_streamed(rows).rail {
            if row.seq is Some {
                assert(is_last_call(rows, n));
            } else {
                assert(m.trip == row.trip);
                let i = choose|i: int| is_last_call(front, i);
                if i < n - 1 {
                    assert(front[n - 1].trip == front[i].trip);
                }
                assert(is_last_call(rows, i)) by {
                    assert forall|k: int| i < k < rows.len() implies (#[trigger] rows[k]).trip
                        == rows[i].trip && rows[k].seq is None by {
                        if k < n {
                            assert(rows[k] == front[k]);
                        }
                    }
                }
            }
        }
    }
}

/// Whether rows `i` and `j` are consecutive calls of a rail trip at the two stations.
spec fn rail_calls(rows: Seq<RailRow>, i: int, j: int, edge: (u32, u32)) -> bool {
    &&& 0 <= i < j < rows.len()
    &&& rows[i].rail
    &&& rows[i].seq is Some && rows[j].seq is Some
    &&& rows[j].seq->0 == rows[i].seq->0 + 1
    &&& rows[i].node is Some && rows[j].node is Some
    &&& rows[i].node->0 != rows[j].node->0
    &&& edge == edge_between(rows[i].node->0, rows[j].node->0)
    &&& forall|k: int| i < k <= j ==> (#[trigger] rows[k]).trip == rows[i].trip
    &&& forall|k: int| i < k < j ==> (#[trigger] rows[k]).seq is None
}

proof fn lemma_rail_calls_within(rows: Seq<RailRow>, i: int, j: int, edge: (u32, u32))
    requires
        rows.len() > 0,
    ensures
        rail_calls(rows.drop_last(), i, j, edge) <==> rail_calls(rows, i, j, edge) && j
            < rows.len() - 1,
{
    let front = rows.drop_last();
    if rail_calls(front, i, j, edge) {
        assert forall|k: int| i < k <= j implies (#[trigger] rows[k]).trip == rows[i].trip && (k < j
            ==> rows[k].seq is None) by {
            assert(rows[k] == front[k]);
        }
    }
    if rail_calls(rows, i, j, edge) && j < rows.len() - 1 {
        assert forall|k: int| i < k <= j implies (#[trigger] front[k]).trip == front[i].trip && (k
            < j ==> front[k].seq is None) by {
            assert(rows[k] == front[k]);
        }
    }
}

proof fn lemma_rail_edges(rows: Seq<RailRow>, edge: (u32, u32))
    requires
        trips_agree(rows),
    ensures
        ({
            let edges = rail_streamed(rows).edges;
            &&& edges.dom().contains(edge) <==> exists|i: int, j: int| rail_calls(rows, i, j, edge)
            &&& edges.dom().contains(edge) && edges[edge] is Some ==> exists|i: int, j: int|
                #[trigger] rail_calls(rows, i, j, edge) && run_time(
                    leaves_at(rows[i]),
                    rows[j].arrival,
                ) == edges[edge]
            &&& forall|i: int, j: int| #[trigger]
                rail_calls(rows, i, j, edge) && run_time(
                    leaves_at(rows[i]),
                    rows[j].arrival,
                ) is Some ==> edges[edge] is Some && edges[edge]->0 <= run_time(
                    leaves_at(rows[i]),
                    rows[j].arrival,
                )->0
        }),
    decreases rows.len(),
{
    if rows.len() == 0 {
        assert forall|i: int, j: int| !rail_calls(rows, i, j, edge) by {}
    } else {
        let front = rows.drop_last();
        let n = rows.len() - 1;
        assert(trips_agree(front)) by {
            assert forall|i: int| 0 <= i < front.len() implies (#[trigger] front[i]).trip.len()
                > 0 by {
                assert(rows[i] == front[i]);
            }
            assert forall|i: int, j: int|
                #![trigger front[i], front[j]]
                0 <= i < front.len() && 0 <= j < front.len() && front[i].trip
                    == front[j].trip implies front[i].rail == front[j].rail by {
                assert(rows[i] == front[i] && rows[j] == front[j]);
            }
        }
        lemma_rail_edges(front, edge);
        lemma_rail_prev(front);
        let m = rail_streamed(front);
        let after = rail_streamed(rows);
        let row = rows.last();
        assert(rows[n] == row);
        assert forall|i: int, j: int| #[trigger]
            rail_calls(front, i, j, edge) implies rail_calls(rows, i, j, edge) && front[i]
            == rows[i] && front[j] == rows[j] by {
            lemma_rail_calls_within(rows, i, j, edge);
        }
        // Whether the last row makes a call, and from which row.
        assert forall|i: int| rail_calls(rows, i, n, edge) implies after.edges == with_run(
            m.edges,
            edge,
            run_time(leaves_at(rows[i]), row.arrival),
        ) by {
            assert(is_last_call(front, i)) by {
                assert forall|k: int| i < k < front.len() implies (#[trigger] front[k]).trip
                    == front[i].trip && front[k].seq is None by {
                    assert(rows[k] == front[k]);
                }
            }
            assert(rows[n].trip == rows[i].trip);
            if i < n - 1 {
                assert(rows[n - 1].trip == rows[i].trip);
            }
            assert(front.last() == rows[n - 1]);
            assert(m.trip == row.trip);
            assert(m.rail);
        }
        if after.edges != m.edges || (after.edges.dom().contains(edge) && !m.edges.dom().contains(
            edge,
        )) {
            assert(m.trip == row.trip && m.prev is Some && m.rail);
            let i = choose|i: int| is_last_call(front, i);
            if i < n - 1 {
                assert(front[n - 1].trip == front[i].trip);
            }
            assert(front.last() == front[n - 1]);
            let made = edge_between(rows[i].node->0, row.node->0);
            assert(rail_calls(rows, i, n, made)) by {
                assert forall|k: int| i < k <= n implies (#[trigger] rows[k]).trip == rows[i].trip
                    && (k < n ==> rows[k].seq is None) by {
                    if k < n {
                        assert(rows[k] == front[k]);
                    }
                }
            }
            assert(after.edges == with_run(
                m.edges,
                made,
                run_time(leaves_at(rows[i]), row.arrival),
            ));
            if made == edge {
                assert(rail_calls(rows, i, n, edge));
            }
        }
        if exists|i: int, j: int| rail_calls(rows, i, j, edge) {
            let (i, j) = choose|i: int, j: int| rail_calls(rows, i, j, edge);
            lemma_rail_calls_within(rows, i, j, edge);
            assert(after.edges.dom().contains(edge));
        }
        if after.edges.dom().contains(edge) && after.edges[edge] is Some {
            if m.edges.dom().contains(edge) && m.edges[edge] == after.edges[edge] {
                let (i, j) = choose|i: int, j: int|
                    #[trigger] rail_calls(front, i, j, edge) && run_time(
                        leaves_at(front[i]),
                        front[j].arrival,
                    ) == m.edges[edge];
                assert(rail_calls(rows, i, j, edge));
            } else {
                let i = choose|i: int| rail_calls(rows, i, n, edge);
                assert(rail_calls(rows, i, n, edge));
            }
        }
        assert forall|i: int, j: int| #[trigger]
            rail_calls(rows, i, j, edge) && run_time(
                leaves_at(rows[i]),
                rows[j].arrival,
            ) is Some implies after.edges[edge] is Some && after.edges[edge]->0 <= run_time(
            leaves_at(rows[i]),
            rows[j].arrival,
        )->0 by {
            lemma_rail_calls_within(rows, i, j, edge);
            if j < n {
                assert(rail_calls(front, i, j, edge));
            }
        }
    }
}

/// A train between two stations joins them, and its run is one of those the fastest is
/// chosen from. Rows `i` and `j` are consecutive calls of a rail trip, with nothing
/// between them but rows of the trip whose numbers cannot be read; a train leaves at
/// its departure, or at its arrival where no departure is given.
pub proof fn law_trains_join_stations(rows: Seq<RailRow>, i: int, j: int)
    requires
        forall|x: int| 0 <= x < rows.len() ==> (#[trigger] rows[x]).trip.len() > 0,
        forall|x: int, y: int|
            #![trigger rows[x], rows[y]]
            0 <= x < rows.len() && 0 <= y < rows.len() && rows[x].trip == rows[y].trip
                ==> rows[x].rail == rows[y].rail,
        0 <= i < j < rows.len(),
        rows[i].rail,
        rows[i].seq is Some,
        rows[j].seq is Some,
        rows[j].seq->0 == rows[i].seq->0 + 1,
        rows[i].node is Some,
        rows[j].node is Some,
        rows[i].node->0 < rows[j].node->0 || rows[j].node->0 < rows[i].node->0,
        forall|k: int| i < k <= j ==> (#[trigger] rows[k]).trip == rows[i].trip,
        forall|k: int| i < k < j ==> (#[trigger] rows[k]).seq is None,
    ensures
        ({
            let edges = rail_streamed(rows).edges;
            let (a, b) = if rows[i].node->0 < rows[j].node->0 {
                (rows[i].node->0, rows[j].node->0)
            } else {
                (rows[j].node->0, rows[i].node->0)
            };
            &&& edges.dom().contains((a, b))
            &&& match (rows[i].departure, rows[i].arrival, rows[j].arrival) {
                (Clock::At(left), _, Clock::At(came)) => came > left ==> edges[(a, b)] is Some
                    && edges[(a, b)]->0 <= came - left,
                (Clock::Blank, Clock::At(left), Clock::At(came)) => came > left ==> edges[(
                    a,
                    b,
                )] is Some && edges[(a, b)]->0 <= came - left,
                _ => true,
            }
        }),
{
    let edge = edge_between(rows[i].node->0, rows[j].node->0);
    assert(trips_agree(rows));
    assert(rail_calls(rows, i, j, edge));
    lemma_rail_edges(rows, edge);
}

/// Stations that are joined have such a train between them, and where a run time is
/// given it is that of one of them: the time from leaving the one to arriving at the
/// other.
pub proof fn law_joined_stations_have_a_train(rows: Seq<RailRow>, edge: (u32, u32)) -> (r: (
    int,
    int,
))
    requires
        forall|x: int| 0 <= x < rows.len() ==> (#[trigger] rows[x]).trip.len() > 0,
        forall|x: int, y: int|
            #![trigger rows[x], rows[y]]
            0 <= x < rows.len() && 0 <= y < rows.len() && rows[x].trip == rows[y].trip
                ==> rows[x].rail == rows[y].rail,
        rail_streamed(rows).edges.dom().contains(edge),
    ensures
        ({
            let (i, j) = r;
            let time = rail_streamed(rows).edges[edge];
            &&& 0 <= i < j < rows.len()
            &&& rows[i].rail
            &&& rows[i].seq is Some && rows[j].seq is Some
            &&& rows[j].seq->0 == rows[i].seq->0 + 1
            &&& rows[i].node is Some && rows[j].node is Some
            &&& edge.0 < edge.1
            &&& (rows[i].node->0 == edge.0 && rows[j].node->0 == edge.1) || (rows[j].node->0
                == edge.0 && rows[i].node->0 == edge.1)
            &&& forall|k: int| i < k <= j ==> (#[trigger] rows[k]).trip == rows[i].trip
            &&& forall|k: int| i < k < j ==> (#[trigger] rows[k]).seq is None
            &&& time is Some ==> {
                &&& rows[j].arrival is At
                &&& time->0 > 0
                &&& match rows[i].departure {
                    Clock::At(left) => rows[j].arrival->At_0 - left == time->0,
                    Clock::Blank => rows[i].arrival is At && rows[j].arrival->At_0
                        - rows[i].arrival->At_0 == time->0,
                    Clock::Never => false,
                }
            }
        }),
{
    assert(trips_agree(rows));
    lemma_rail_edges(rows, edge);
    let edges = rail_streamed(rows).edges;
    if edges[edge] is Some {
        let (i, j) = choose|i: int, j: int|
            #[trigger] rail_calls(rows, i, j, edge) && run_time(
                leaves_at(rows[i]),
                rows[j].arrival,
            ) == edges[edge];
        assert(rail_calls(rows, i, j, edge));
        (i, j)
    } else {
        let (i, j) = choose|i: int, j: int| rail_calls(rows, i, j, edge);
        assert(rail_calls(rows, i, j, edge));
        (i, j)
    }
}

/// What a row of the rail timetable says.
pub proof fn law_a_rail_row_is_its_columns(
    trip: Seq<char>,
    stop: Seq<char>,
    seq: Seq<char>,
    arrival: Clock,
    departure: Clock,
    index: Map<Seq<char>, usize>,
    trips: Set<Seq<char>>,
)
    requires
        index.dom().contains(stop) ==> index[stop] <= u32::MAX,
    ensures
        ({
            let row = rail_row_of(trip, stop, seq, arrival, departure, index, trips);
            &&& row.trip == trip
            &&& row.rail <==> trips.contains(trip)
            &&& row.seq == parsed_u32(trimmed(seq))
            &&& row.node is Some <==> index.dom().contains(stop)
            &&& row.node is Some ==> row.node->0 == index[stop]
            &&& row.arrival == arrival
            &&& row.departure == departure
        }),
{
}

// ------------------------------------------------- which stations are kept

/// How the kept stations are numbered: in their order, without gaps, and only those
/// at which some run begins or ends.
pub proof fn law_served_stations_are_numbered_in_order(runs: Seq<Run>, k: nat)
    ensures
        touched_count(runs, 0) == 0,
        touched_count(runs, k + 1) == touched_count(runs, k) + (if exists|i: int|
            0 <= i < runs.len() && ((#[trigger] runs[i]).a == k || runs[i].b == k) {
            1int
        } else {
            0
        }),
{
    assert(touched(runs, k as int) <==> exists|i: int|
        0 <= i < runs.len() && ((#[trigger] runs[i]).a == k || runs[i].b == k));
}

/// Runs are renumbered one by one; one with a station that is not kept is left out.
pub proof fn law_runs_are_renumbered_one_by_one(dense: Seq<Option<u32>>, runs: Seq<Run>)
    ensures
        renumbered_runs(dense, runs) == runs.filter_map(
            |run: Run|
                if run.a < dense.len() && run.b < dense.len() && dense[run.a as int] is Some
                    && dense[run.b as int] is Some {
                    Some(
                        Run {
                            a: dense[run.a as int]->0,
                            b: dense[run.b as int]->0,
                            time: run.time,
                        },
                    )
                } else {
                    None
                },
        ),
    decreases runs.len(),
{
    if runs.len() > 0 {
        law_runs_are_renumbered_one_by_one(dense, runs.drop_last());
        assert(renumbered_runs(dense, runs) =~= runs.filter_map(
            |run: Run|
                if run.a < dense.len() && run.b < dense.len() && dense[run.a as int] is Some
                    && dense[run.b as int] is Some {
                    Some(
                        Run {
                            a: dense[run.a as int]->0,
                            b: dense[run.b as int]->0,
                            time: run.time,
                        },
                    )
                } else {
                    None
                },
        ));
    }
}

// ------------------------------------------------------ links of the graph

/// A station's train links are those of the edges that touch it, in their order, with
/// the edge's own length and run time, each edge being listed at both its ends.
pub proof fn law_train_links_are_the_edges<M, S>(
    n: nat,
    edges: Seq<RailEdge<M, S>>,
    k: nat,
    u: u32,
)
    requires
        k <= edges.len(),
        u < n,
        forall|i: int|
            0 <= i < edges.len() ==> (#[trigger] edges[i]).u < n && edges[i].v < n && edges[i].u
                != edges[i].v,
    ensures
        train_links(n, edges, k).len() == n,
        train_links(n, edges, k)[u as int] == edges.take(k as int).filter_map(
            |e: RailEdge<M, S>|
                if e.u == u {
                    Some(RailLink { to: e.v, metres: e.metres, seconds: e.seconds })
                } else if e.v == u {
                    Some(RailLink { to: e.u, metres: e.metres, seconds: e.seconds })
                } else {
                    None
                },
        ),
    decreases k,
{
    if k > 0 {
        law_train_links_are_the_edges(n, edges, (k - 1) as nat, u);
        assert(edges.take(k as int).drop_last() =~= edges.take(k - 1));
        assert(edges[k - 1].u != edges[k - 1].v);
        assert(train_links(n, edges, k)[u as int] =~= edges.take(k as int).filter_map(
            |e: RailEdge<M, S>|
                if e.u == u {
                    Some(RailLink { to: e.v, metres: e.metres, seconds: e.seconds })
                } else if e.v == u {
                    Some(RailLink { to: e.u, metres: e.metres, seconds: e.seconds })
                } else {
                    None
                },
        ));
    } else {
        assert(edges.take(0) =~= Seq::empty());
    }
}

/// How many walks there are: one more for each pair of near stations that neither a
/// train nor an earlier walk joins.
pub proof fn law_walks_are_counted<M, S>(
    trains: Seq<Seq<RailLink<M, S>>>,
    near: Seq<(u32, u32)>,
    walk: S,
    free: M,
    k: nat,
)
    requires
        k < near.len(),
    ensures
        walk_count(trains, near, walk, free, 0) == 0,
        walk_count(trains, near, walk, free, k + 1) == walk_count(trains, near, walk, free, k) + (
        if exists|i: int|
            0 <= i < walk_links(trains, near, walk, free, k)[near[k as int].0 as int].len() && (
            #[trigger] walk_links(trains, near, walk, free, k)[near[k as int].0 as int][i]).to
                == near[k as int].1 {
            0int
        } else {
            1
        }),
{
    let rows = walk_links(trains, near, walk, free, k);
    let p = near[k as int];
    assert(links_to(rows, p.0, p.1) <==> exists|i: int|
        0 <= i < rows[p.0 as int].len() && (#[trigger] rows[p.0 as int][i]).to == p.1);
}

/// A walk is for stations within 400 metres and takes five minutes.
pub proof fn law_walks_are_short()
    ensures
        WALK_METRES == 400,
        WALK_SECONDS == 5 * 60,
{
}

/// The three lists of a rail graph run side by side: place `i` of row `u` holds where
/// that link leads, how long it is and how long it takes.
pub proof fn law_link_lists_run_side_by_side<M, S>(
    g: NatGraph<M, S>,
    links: Seq<Seq<RailLink<M, S>>>,
    u: int,
    i: int,
)
    requires
        lists_links(g, links),
        0 <= u < links.len(),
        0 <= i < links[u].len(),
    ensures
        g.adjacency@.len() == links.len(),
        g.metres@.len() == links.len(),
        g.seconds@.len() == links.len(),
        g.adjacency@[u]@.len() == links[u].len(),
        g.metres@[u]@.len() == links[u].len(),
        g.seconds@[u]@.len() == links[u].len(),
        g.adjacency@[u]@[i] == links[u][i].to,
        g.metres@[u]@[i] == links[u][i].metres,
        g.seconds@[u]@[i] == links[u][i].seconds,
{
    assert(g.adjacency@[u]@ == Seq::new(links[u].len(), |j: int| links[u][j].to));
}

/// There is one size for each connected part, in their order.
pub proof fn law_sizes_count_the_parts(comps: Seq<Seq<u32>>, sizes: Seq<usize>)
    requires
        sizes_of(comps, sizes),
    ensures
        sizes.map_values(|size: usize| size as nat) == comps.map_values(
            |comp: Seq<u32>| comp.len(),
        ),
{
    assert(sizes.map_values(|size: usize| size as nat) =~= comps.map_values(
        |comp: Seq<u32>| comp.len(),
    ));
}

/// Which route types are rail, by their digits: of the types written with one digit
/// only `2`, none of those with two, and of those with three every `10` followed by a
/// digit and every `11` followed by a digit up to `7`. White space around is no matter,
/// and what is no number is no rail.
pub proof fn law_rail_types_by_their_digits(s: Seq<char>)
    ensures
        ({
            let t = trimmed(s);
            let written = t.len() > 0 && '1' <= t[0] <= '9' && forall|i: int|
                0 <= i < t.len() ==> '0' <= #[trigger] t[i] <= '9';
            &&& written && t.len() == 1 ==> (is_rail_type(s) <==> t[0] == '2')
            &&& written && t.len() == 2 ==> !is_rail_type(s)
            &&& written && t.len() == 3 ==> (is_rail_type(s) <==> t[0] == '1' && (t[1] == '0' || (
            t[1] == '1' && t[2] <= '7')))
            &&& written && t.len() > 3 ==> !is_rail_type(s)
            &&& t.len() == 0 ==> !is_rail_type(s)
            &&& t.len() > 0 && !(t[0] == '+' || '0' <= t[0] <= '9') ==> !is_rail_type(s)
        }),
{
    let t = trimmed(s);
    reveal_with_fuel(decimal, 4);
    if t.len() > 0 && '1' <= t[0] <= '9' && forall|i: int|
        0 <= i < t.len() ==> '0' <= #[trigger] t[i] <= '9' {
        assert(all_digits(t));
        if t.len() == 1 {
            assert(decimal(t) == t[0] as nat - '0' as nat);
        } else if t.len() == 2 {
            assert(t.drop_last().last() == t[0]);
            assert(decimal(t) == 10 * (t[0] as nat - '0' as nat) + (t[1] as nat - '0' as nat));
        } else if t.len() == 3 {
            assert(t.drop_last().last() == t[1]);
            assert(t.drop_last().drop_last().last() == t[0]);
            assert(decimal(t) == 100 * (t[0] as nat - '0' as nat) + 10 * (t[1] as nat - '0' as nat)
                + (t[2] as nat - '0' as nat));
        } else {
            lemma_four_digits(t);
        }
    }
}

proof fn lemma_four_digits(t: Seq<char>)
    requires
        t.len() >= 4,
        '1' <= t[0] <= '9',
        forall|i: int| 0 <= i < t.len() ==> '0' <= #[trigger] t[i] <= '9',
    ensures
        decimal(t) >= 1000,
    decreases t.len(),
{
    reveal_with_fuel(decimal, 4);
    if t.len() > 4 {
        lemma_four_digits(t.drop_last());
    } else {
        assert(t.drop_last().last() == t[2]);
        assert(t.drop_last().drop_last().last() == t[1]);
        assert(t.drop_last().drop_last().drop_last().last() == t[0]);
    }
}

/// Which numbers are Swiss: those whose first two characters are 8 and 5. Quotation
/// marks around a number do not count.
pub proof fn law_swiss_numbers_begin_with_85(didok: Seq<char>)
    ensures
        didok.len() < 2 ==> !is_swiss_number(didok),
        didok.len() >= 2 && didok[0] != '"' && didok.last() != '"' ==> (is_swiss_number(didok)
            <==> didok[0] == '8' && didok[1] == '5'),
        is_swiss_number(seq!['"'] + didok) == is_swiss_number(didok),
        didok.len() >= 2 && didok[0] != '"' ==> is_swiss_number(didok.push('"'))
            == is_swiss_number(didok),
{
    reveal_strlit("85");
    let quote = |c: char| c == '"';
    let bare = trimmed_of(didok, quote);
    let front = seq!['"'] + didok;
    assert(front[0] == '"');
    assert(front.drop_first() =~= didok);
    assert(trimmed_of(front, quote) == bare);
    assert(didok.push('"').drop_last() =~= didok);
    if didok.len() >= 2 && didok[0] != '"' {
        assert(didok.push('"')[0] == didok[0]);
        assert(didok.push('"').last() == '"');
        assert(trimmed_of(didok.push('"'), quote) == bare);
    }
    if didok.len() < 2 {
        let ends = law_trimming_takes_ends_off(didok, quote);
        assert(didok.len() == ends.0.len() + bare.len() + ends.1.len());
        assert(!"85"@.is_prefix_of(bare));
    }
    if didok.len() >= 2 && didok[0] != '"' && didok.last() != '"' {
        assert(bare == didok);
        if didok[0] == '8' && didok[1] == '5' {
            assert("85"@ =~= didok.subrange(0, 2));
        }
        if "85"@.is_prefix_of(didok) {
            assert("85"@[0] == didok.subrange(0, 2)[0]);
            assert("85"@[1] == didok.subrange(0, 2)[1]);
        }
    }
}

/// The kept stations are those at which some run begins or ends, in their order, and no
/// others: station `j` among them is the `j`-th such one.
pub proof fn law_kept_stations_are_the_served_ones<C>(
    stations: Seq<NatStation<C>>,
    runs: Seq<Run>,
    served: Served<C>,
)
    requires
        keeps_touched(stations, runs, served),
        stations.len() <= u32::MAX,
    ensures
        ({
            let places = Seq::new(stations.len(), |i: int| i).filter(
                |place: int|
                    exists|i: int|
                        0 <= i < runs.len() && ((#[trigger] runs[i]).a == place || runs[i].b
                            == place),
            );
            &&& served.stations@.len() == places.len()
            &&& forall|j: int|
                0 <= j < places.len() ==> (#[trigger] served.stations@[j])@ == stations[places[j]]@
        }),
        served.dense@.len() == stations.len(),
        forall|i: int|
            0 <= i < stations.len() && (#[trigger] served.dense@[i]) is Some
                ==> served.stations@[served.dense@[i]->0 as int]@ == stations[i]@,
{
    lemma_served_places(stations, runs, served, stations.len());
    assert forall|i: int|
        0 <= i < stations.len() && (#[trigger] served.dense@[i]) is Some implies served.stations@[served.dense@[i]->0 as int]@
        == stations[i]@ by {
        lemma_touched_below(runs, i as nat);
    }
}

proof fn lemma_touched_below(runs: Seq<Run>, k: nat)
    ensures
        touched_count(runs, k) <= k,
    decreases k,
{
    if k > 0 {
        lemma_touched_below(runs, (k - 1) as nat);
    }
}

proof fn lemma_served_places<C>(
    stations: Seq<NatStation<C>>,
    runs: Seq<Run>,
    served: Served<C>,
    k: nat,
)
    requires
        keeps_touched(stations, runs, served),
        k <= stations.len(),
    ensures
        ({
            let places = Seq::new(k, |i: int| i).filter(
                |place: int|
                    exists|i: int|
                        0 <= i < runs.len() && ((#[trigger] runs[i]).a == place || runs[i].b
                            == place),
            );
            &&& touched_count(runs, k) == places.len()
            &&& forall|j: int|
                0 <= j < places.len() ==> (#[trigger] served.stations@[j])@ == stations[places[j]]@
        }),
    decreases k,
{
    reveal(Seq::filter);
    let all = Seq::new(k, |i: int| i);
    let test = |place: int|
        exists|i: int|
            0 <= i < runs.len() && ((#[trigger] runs[i]).a == place || runs[i].b == place);
    let places = all.filter(test);
    if k > 0 {
        lemma_served_places(stations, runs, served, (k - 1) as nat);
        assert(all.drop_last() =~= Seq::new((k - 1) as nat, |i: int| i));
        assert(all.last() == k - 1);
        assert(test(k - 1) == touched(runs, k - 1));
        let before = all.drop_last().filter(test);
        assert(places =~= if test(k - 1) {
            before.push(k - 1)
        } else {
            before
        });
        assert(served.dense@[k - 1] is Some <==> touched(runs, k - 1));
        assert forall|j: int| 0 <= j < places.len() implies (#[trigger] served.stations@[j])@
            == stations[places[j]]@ by {
            if j < before.len() {
                assert(places[j] == before[j]);
            }
        }
    } else {
        assert(all =~= Seq::empty());
    }
}

} // verus!
