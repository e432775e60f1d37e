//! Two jobs: check the model against real ZVV prices, and measure how the Pareto
//! frontier actually grows on this network.
//!
//! A fixture mismatch is a bug in the graph or the zone assignment. Never adjust
//! the price table to make a fixture pass.

use crate::bits::{bit_set, has_bit};
use crate::fares::{
    has_stufe, is_first_row, price_column, stufe_of, Class, FareTable, Reduction,
};
use crate::graph::{link_total, Graph, GraphModel};
use crate::graph_json::{
    describes, law_graph_survives_round_trip, law_written_graphs_load, loadable, read_model,
    GraphJson,
};
use crate::search::{
    is_outcome, label_sum, reached_count, search, search_capped, weights_attained, LabelMean,
    SearchResult, LABEL_CAP,
};
use crate::search_laws::{law_rides_stay_indexed, zones_indexed};
use crate::stations::Station;
use crate::text::{same, starts_with, texts};
use crate::zoneset::{
    indexed, lemma_increasing_distinct, lemma_same_numbers, zone_numbers_valid, TooManyZones,
    ZoneIndex, ZoneSet,
};
use vstd::prelude::*;

verus! {

/// A real ZVV fare, looked up on zvv.ch.
#[derive(Debug, Clone, Copy)]
pub struct Fixture {
    pub from: &'static str,
    pub to: &'static str,
    /// Expected number of billed zones (the tariff's zone count).
    pub zones: u32,
    /// Expected adult 2nd-class single-ticket price in Rappen.
    pub rappen: u64,
    pub note: &'static str,
}

/// Whether a fixture is of this journey and expects this.
pub open spec fn expects(
    f: Fixture,
    from: &'static str,
    to: &'static str,
    zones: u32,
    rappen: u64,
) -> bool {
    f.from == from && f.to == to && f.zones == zones && f.rappen == rappen
}

/// The fares to check against. Station names are matched against GTFS `stop_name`.
///
/// Expected values are derived from the official ZVV Tarifzonenplan together with
/// ZVV's published rule that a ticket must cover every zone the journey *passes
/// through*, then priced from the fare table. Each fixture records the zone chain
/// so the derivation is auditable rather than taken on trust. They are derived
/// independently of the search, not read back out of it.
pub fn fixtures() -> (r: Vec<Fixture>)
    ensures
        r@.len() == 6,
        expects(r@[0], "Zürich HB", "Zürich Oerlikon", 2, 470),
        expects(r@[1], "Zürich HB", "Winterthur", 6, 1360),
        expects(r@[2], "Zürich HB", "Uster", 5, 1140),
        expects(r@[3], "Zürich HB", "Dietikon", 3, 720),
        expects(r@[4], "Winterthur", "Uster", 6, 1360),
        expects(r@[5], "Wetzikon ZH", "Rapperswil SG", 4, 940),
{
    let mut out: Vec<Fixture> = Vec::new();
    out.push(
        Fixture {
            from: "Zürich HB",
            to: "Zürich Oerlikon",
            zones: 2,
            rappen: 470,
            note: "{110}: both stops inside the city zone, which counts double — Tarifstufe 2, not 1",
        },
    );
    out.push(
        Fixture {
            from: "Zürich HB",
            to: "Winterthur",
            zones: 6,
            rappen: 1360,
            note: "{110 x2, 121, 122, 120 x2}: the non-stop IC still crosses Wallisellen/Effretikon territory and must pay for it",
        },
    );
    out.push(
        Fixture {
            from: "Zürich HB",
            to: "Uster",
            zones: 5,
            rappen: 1140,
            note: "{110 x2, 121, 130, 131}: the line runs through zone 130 at Nänikon-Greifensee even on trains that do not stop there",
        },
    );
    out.push(
        Fixture {
            from: "Zürich HB",
            to: "Dietikon",
            zones: 3,
            rappen: 720,
            note: "{110 x2, 154}: Altstetten is still 110 and Schlieren already 154, so nothing lies between",
        },
    );
    out.push(
        Fixture {
            from: "Winterthur",
            to: "Uster",
            zones: 6,
            rappen: 1360,
            note: "{120 x2, 122, 121, 130, 131} via Effretikon, or {120 x2, 122, 135, 132, 131} via Pfäffikon — both count 6",
        },
    );
    out.push(
        Fixture {
            from: "Wetzikon ZH",
            to: "Rapperswil SG",
            zones: 4,
            rappen: 940,
            note: "{132, 133, 134, 180}: zone 133 at Bubikon is crossed even by trains that run through it",
        },
    );
    out
}

// ------------------------------------------------------------- the model

/// A built model: its stations, graph and zone numbering.
pub struct Loaded<C> {
    pub stations: Vec<Station<C>>,
    pub graph: Graph,
    pub zones: ZoneIndex,
}

/// Whether every search of a model is within its zone numbering, and every station
/// is a node of the graph.
pub open spec fn searchable<C>(l: Loaded<C>) -> bool {
    &&& l.graph@.valid()
    &&& zone_numbers_valid(l.zones@)
    &&& zones_indexed(l.graph@, l.zones@)
    &&& l.stations@.len() <= l.graph@.size()
}

/// Whether `r` is what loading these stations and this graph gives: a model of them,
/// or a refusal where the graph numbers more zones than a set can hold.
pub open spec fn is_load<C>(
    stations: Vec<Station<C>>,
    json: GraphJson,
    r: Result<Loaded<C>, TooManyZones>,
) -> bool {
    match r {
        Ok(l) => {
            &&& l.stations == stations
            &&& l.graph@ == read_model(json)
            &&& l.graph@.valid()
            &&& zone_numbers_valid(l.zones@)
            &&& l.zones@.to_set() == json.zone_numbers@.to_set()
        },
        Err(e) => {
            &&& json.zone_numbers@.to_set().len() > 64
            &&& e.count == json.zone_numbers@.to_set().len()
        },
    }
}

/// Puts a model together from what is stored of it.
pub fn load<C>(stations: Vec<Station<C>>, json: &GraphJson) -> (r: Result<Loaded<C>, TooManyZones>)
    requires
        loadable(*json),
    ensures
        is_load(stations, *json, r),
{
    let mut numbers: Vec<u32> = Vec::new();
    let mut i: usize = 0;
    while i < json.zone_numbers.len()
        invariant
            i <= json.zone_numbers@.len(),
            numbers@ == json.zone_numbers@.take(i as int),
        decreases json.zone_numbers@.len() - i,
    {
        numbers.push(json.zone_numbers[i]);
        i = i + 1;
    }
    assert(numbers@ =~= json.zone_numbers@);
    match ZoneIndex::new(numbers) {
        Ok(zones) => Ok(Loaded { stations, graph: json.to_graph(), zones }),
        Err(e) => Err(e),
    }
}

/// Loading undoes writing: what is written of a graph and a zone numbering can be
/// loaded, and gives back the stations, the numbering, and the graph with the same
/// zones and, at every station, the same links.
pub proof fn law_load_undoes_write<C>(
    stations: Vec<Station<C>>,
    json: GraphJson,
    g: GraphModel,
    numbers: Seq<u32>,
    r: Result<Loaded<C>, TooManyZones>,
)
    requires
        g.valid(),
        g.size() <= u32::MAX,
        link_total(g.links, g.size()) <= u32::MAX,
        zone_numbers_valid(numbers),
        describes(json, g, numbers),
        is_load(stations, json, r),
    ensures
        loadable(json),
        r matches Ok(l) && {
            &&& l.stations == stations
            &&& l.zones@ == numbers
            &&& l.graph@.size() == g.size()
            &&& l.graph@.edge_total() == g.edge_total()
            &&& l.graph@.zones == g.zones
            &&& forall|u: int|
                0 <= u < g.size() ==> (#[trigger] l.graph@.links[u]).len() == g.links[u].len()
            &&& forall|u: int, link: (u32, u64)|
                0 <= u < g.size() ==> (#[trigger] l.graph@.links[u].contains(link)
                    <==> g.links[u].contains(link))
        },
{
    law_written_graphs_load(json, g, numbers);
    law_graph_survives_round_trip(json, g, numbers);
    lemma_increasing_distinct(numbers);
    if let Ok(l) = r {
        lemma_same_numbers(l.zones@, numbers);
    }
}

fn mask_indexed(mask: u64, zones: &ZoneIndex) -> (r: bool)
    ensures
        r == indexed(zones@, bit_set(mask)),
{
    let bits = ZoneSet(mask).iter();
    let mut i: usize = 0;
    while i < bits.len()
        invariant
            i <= bits@.len(),
            forall|x: u8| #[trigger] bits@.contains(x) <==> bit_set(mask).contains(x as int),
            forall|k: int| 0 <= k < i ==> #[trigger] bits@[k] < zones@.len(),
        decreases bits@.len() - i,
    {
        let bit: u8 = bits[i];
        if bit as usize >= zones.len() {
            proof {
                assert(bits@.contains(bit));
                assert(bit_set(mask).contains(bit as int));
            }
            return false;
        }
        i = i + 1;
    }
    proof {
        assert forall|b: int| #[trigger] bit_set(mask).contains(b) implies b < zones@.len() by {
            assert(0 <= b < 64);
            assert(bits@.contains(b as u8));
        }
    }
    true
}

impl<C> Loaded<C> {
    /// Whether every search of this model can run.
    pub fn is_searchable(&self) -> (r: bool)
        ensures
            r == searchable(*self),
    {
        let n: usize = self.graph.node_count();
        let count: usize = self.zones.len();
        if self.stations.len() > n {
            return false;
        }
        let mut u: usize = 0;
        while u < n
            invariant
                n == self.graph@.size(),
                n <= u32::MAX,
                count == self.zones@.len(),
                self.graph@.valid(),
                u <= n,
                forall|v: int| 0 <= v < u ==> #[trigger] self.graph@.zones[v] < count,
                forall|v: int, i: int|
                    #![trigger self.graph@.links[v][i]]
                    0 <= v < u && 0 <= i < self.graph@.links[v].len() ==> indexed(
                        self.zones@,
                        bit_set(self.graph@.links[v][i].1),
                    ),
            decreases n - u,
        {
            if self.graph.zone_of(u as u32) as usize >= count {
                return false;
            }
            let links = self.graph.edges_from(u as u32);
            let mut i: usize = 0;
            while i < links.len()
                invariant
                    u < n,
                    n == self.graph@.size(),
                    links@ == self.graph@.links[u as int],
                    i <= links@.len(),
                    forall|k: int|
                        0 <= k < i ==> indexed(self.zones@, bit_set((#[trigger] links@[k]).1)),
                decreases links@.len() - i,
            {
                if !mask_indexed(links[i].1, &self.zones) {
                    assert(!indexed(self.zones@, bit_set(self.graph@.links[u as int][i as int].1)));
                    return false;
                }
                i = i + 1;
            }
            u = u + 1;
        }
        true
    }
}

// --------------------------------------------------------- station names

/// Whether station `i` is the first with exactly this name.
pub open spec fn is_first_named<C>(stations: Seq<Station<C>>, name: Seq<char>, i: int) -> bool {
    &&& 0 <= i < stations.len()
    &&& stations[i].name@ == name
    &&& forall|j: int| 0 <= j < i ==> (#[trigger] stations[j]).name@ != name
}

/// Whether no station has exactly this name.
pub open spec fn none_named<C>(stations: Seq<Station<C>>, name: Seq<char>) -> bool {
    forall|j: int| 0 <= j < stations.len() ==> (#[trigger] stations[j]).name@ != name
}

/// Those of the first `k` stations whose names start with this one.
pub open spec fn starting_with<C>(stations: Seq<Station<C>>, name: Seq<char>, k: nat) -> Seq<usize>
    decreases k,
{
    if k == 0 {
        Seq::empty()
    } else {
        let rest = starting_with(stations, name, (k - 1) as nat);
        if name.is_prefix_of(stations[k - 1].name@) {
            rest.push((k - 1) as usize)
        } else {
            rest
        }
    }
}

/// How many candidates an ambiguous name is answered with.
pub const LISTED_NAMES: usize = 6;

/// The names of the first few stations of a list.
pub open spec fn first_names<C>(stations: Seq<Station<C>>, found: Seq<usize>) -> Seq<Seq<char>> {
    Seq::new(
        if found.len() < LISTED_NAMES {
            found.len()
        } else {
            LISTED_NAMES as nat
        },
        |i: int| stations[found[i] as int].name@,
    )
}

/// Why a station is not found by name.
#[derive(Debug)]
pub enum NameError {
    /// No station has this name or one that starts with it.
    Unknown,
    /// Several stations have names that start with it: the first few of them.
    Ambiguous(Vec<String>),
}

/// Whether looking a name up gives this.
pub open spec fn is_found<C>(
    stations: Seq<Station<C>>,
    name: Seq<char>,
    r: Result<u32, NameError>,
) -> bool {
    let found = starting_with(stations, name, stations.len());
    match r {
        Ok(i) => is_first_named(stations, name, i as int) || (none_named(stations, name) && found
            == seq![i as usize]),
        Err(NameError::Unknown) => none_named(stations, name) && found.len() == 0,
        Err(NameError::Ambiguous(names)) => {
            &&& none_named(stations, name)
            &&& found.len() > 1
            &&& texts(names@) == first_names(stations, found)
        },
    }
}

proof fn lemma_found_in_range<C>(stations: Seq<Station<C>>, name: Seq<char>, k: nat)
    requires
        k <= stations.len(),
    ensures
        starting_with(stations, name, k).len() <= k,
        forall|i: int|
            0 <= i < starting_with(stations, name, k).len() ==> #[trigger] starting_with(
                stations,
                name,
                k,
            )[i] < stations.len(),
    decreases k,
{
    if k > 0 {
        lemma_found_in_range(stations, name, (k - 1) as nat);
    }
}

/// Find a station by exact name, else by unique prefix.
pub fn find_station<C>(stations: &Vec<Station<C>>, name: &str) -> (r: Result<u32, NameError>)
    requires
        stations@.len() <= u32::MAX,
    ensures
        is_found(stations@, name@, r),
        r is Ok ==> r->Ok_0 < stations@.len(),
{
    let mut i: usize = 0;
    while i < stations.len()
        invariant
            i <= stations@.len(),
            stations@.len() <= u32::MAX,
            forall|j: int| 0 <= j < i ==> (#[trigger] stations@[j]).name@ != name@,
        decreases stations@.len() - i,
    {
        if same(stations[i].name.as_str(), name) {
            return Ok(i as u32);
        }
        i = i + 1;
    }
    let mut found: Vec<usize> = Vec::new();
    let mut k: usize = 0;
    while k < stations.len()
        invariant
            k <= stations@.len(),
            found@ == starting_with(stations@, name@, k as nat),
        decreases stations@.len() - k,
    {
        if starts_with(stations[k].name.as_str(), name) {
            found.push(k);
        }
        k = k + 1;
    }
    proof {
        lemma_found_in_range(stations@, name@, stations@.len());
    }
    if found.len() == 0 {
        return Err(NameError::Unknown);
    }
    if found.len() == 1 {
        let at: usize = found[0];
        assert(found@ =~= seq![at]);
        return Ok(at as u32);
    }
    let mut names: Vec<String> = Vec::new();
    let mut n: usize = 0;
    while n < found.len() && n < LISTED_NAMES
        invariant
            n <= found@.len(),
            n <= LISTED_NAMES,
            names@.len() == n,
            forall|x: int| 0 <= x < found@.len() ==> #[trigger] found@[x] < stations@.len(),
            forall|x: int|
                0 <= x < n ==> (#[trigger] names@[x])@ == stations@[found@[x] as int].name@,
        decreases found@.len() - n,
    {
        names.push(stations[found[n]].name.clone());
        n = n + 1;
    }
    assert(texts(names@) =~= first_names(stations@, found@));
    Err(NameError::Ambiguous(names))
}

// --------------------------------------------------------------- fixtures

/// The fare table has no price for a zone weight.
#[derive(Debug, Clone, Copy, PartialEq, Eq, Structural)]
pub struct NoPrice {
    pub weight: u32,
}

/// What a fixture comes out as.
#[derive(Debug)]
pub enum Verdict {
    /// The first station that is not found by name.
    Skipped(NameError),
    Unreachable,
    Priced {
        zones: u32,
        rappen: u64,
        /// The zone numbers paid for.
        paid: Vec<u32>,
        /// Whether zones and price are as expected.
        good: bool,
    },
}

/// Whether a fixture passes.
pub open spec fn passes(v: Verdict) -> bool {
    v matches Verdict::Priced { good, .. } && good
}

/// The zone numbers of a set, in increasing order of their indices.
pub open spec fn lists_set(numbers: Seq<u32>, set: Set<int>, paid: Seq<u32>) -> bool {
    &&& forall|i: int, j: int|
        #![trigger paid[i], paid[j]]
        0 <= i < j < paid.len() ==> paid[i] < paid[j]
    &&& forall|number: u32| #[trigger]
        paid.contains(number) <==> exists|b: int|
            0 <= b < numbers.len() && #[trigger] numbers[b] == number && set.contains(b)
}

/// Whether a search result, read at `to`, gives this verdict on a fixture.
pub open spec fn judges(
    numbers: Seq<u32>,
    table: FareTable<u64>,
    f: Fixture,
    result: SearchResult,
    to: int,
    r: Result<Verdict, NoPrice>,
) -> bool {
    match result.weights@[to] {
        None => r matches Ok(Verdict::Unreachable),
        Some(w) => if has_stufe(table.stufen@, stufe_of(w)) {
            &&& r matches Ok(Verdict::Priced { zones, rappen, paid, good })
            &&& zones == w
            &&& forall|i: int| #[trigger]
                is_first_row(table.stufen@, stufe_of(w), i) ==> rappen == price_column(
                    table.stufen@[i].prices,
                    Class::Second,
                    Reduction::Full,
                )
            &&& good == (w == f.zones && rappen == f.rappen)
            &&& lists_set(numbers, result.best_sets@[to]->0@, paid@)
        } else {
            r == Err::<Verdict, NoPrice>(NoPrice { weight: w })
        },
    }
}

fn zones_of(set: ZoneSet, zones: &ZoneIndex) -> (r: Vec<u32>)
    requires
        indexed(zones@, set@),
        zone_numbers_valid(zones@),
    ensures
        lists_set(zones@, set@, r@),
{
    let bits = set.iter();
    let ghost numbers = zones@;
    assert forall|i: int| 0 <= i < bits@.len() implies #[trigger] bits@[i] < numbers.len()
        && set@.contains(bits@[i] as int) by {
        assert(bits@.contains(bits@[i]));
    }
    let mut out: Vec<u32> = Vec::new();
    let mut i: usize = 0;
    while i < bits.len()
        invariant
            numbers == zones@,
            i <= bits@.len(),
            forall|k: int|
                0 <= k < bits@.len() ==> #[trigger] bits@[k] < numbers.len() && set@.contains(
                    bits@[k] as int,
                ),
            out@.len() == i,
            forall|k: int| 0 <= k < i ==> #[trigger] out@[k] == numbers[bits@[k] as int],
        decreases bits@.len() - i,
    {
        out.push(zones.number_at(bits[i]));
        i = i + 1;
    }
    proof {
        assert forall|number: u32| #[trigger] out@.contains(number) <==> exists|b: int|
            0 <= b < numbers.len() && #[trigger] numbers[b] == number && set@.contains(b) by {
            if out@.contains(number) {
                let k = choose|k: int| 0 <= k < out@.len() && out@[k] == number;
                assert(numbers[bits@[k] as int] == number);
            }
            if exists|b: int|
                0 <= b < numbers.len() && #[trigger] numbers[b] == number && set@.contains(b) {
                let b = choose|b: int|
                    0 <= b < numbers.len() && #[trigger] numbers[b] == number && set@.contains(b);
                assert(bits@.contains(b as u8));
                let k = choose|k: int| 0 <= k < bits@.len() && bits@[k] == b as u8;
                assert(out@[k] == number);
            }
        }
    }
    out
}

/// Reads a fixture off a search result.
pub fn judge(
    zones: &ZoneIndex,
    table: &FareTable<u64>,
    f: &Fixture,
    result: &SearchResult,
    to: u32,
) -> (r: Result<Verdict, NoPrice>)
    requires
        to < result.weights@.len(),
        to < result.best_sets@.len(),
        result.weights@[to as int] is Some ==> result.best_sets@[to as int] is Some && indexed(
            zones@,
            result.best_sets@[to as int]->0@,
        ),
    ensures
        judges(zones@, *table, *f, *result, to as int, r),
{
    match result.weights[to as usize] {
        None => Ok(Verdict::Unreachable),
        Some(w) => {
            let rappen: u64 = match table.price(w, Class::Second, Reduction::Full) {
                Some(price) => price,
                None => {
                    return Err(NoPrice { weight: w });
                },
            };
            let set = match result.best_sets[to as usize] {
                Some(set) => set,
                None => ZoneSet::empty(),
            };
            let count: usize = zones.len();
            assert(count <= 64);
            let paid = zones_of(set, zones);
            Ok(
                Verdict::Priced {
                    zones: w,
                    rappen,
                    paid,
                    good: w == f.zones && rappen == f.rappen,
                },
            )
        },
    }
}

/// Whether a verdict is the one a fixture has in a model: its stations are looked
/// up by name, the first one first, and what the search finds is judged.
pub open spec fn is_verdict<C>(
    l: Loaded<C>,
    table: FareTable<u64>,
    f: Fixture,
    r: Result<Verdict, NoPrice>,
) -> bool {
    ||| r matches Ok(Verdict::Skipped(e)) && is_found(
        l.stations@,
        f.from@,
        Err::<u32, NameError>(e),
    )
    ||| exists|from: u32| #[trigger]
        is_found(l.stations@, f.from@, Ok::<u32, NameError>(from)) && {
            ||| r matches Ok(Verdict::Skipped(e)) && is_found(
                l.stations@,
                f.to@,
                Err::<u32, NameError>(e),
            )
            ||| exists|to: u32, result: SearchResult|
                #![trigger judges(l.zones@, table, f, result, to as int, r)]
                {
                    &&& is_found(l.stations@, f.to@, Ok::<u32, NameError>(to))
                    &&& is_outcome(l.graph@, l.zones@, from as int, LABEL_CAP as nat, result)
                    &&& judges(l.zones@, table, f, result, to as int, r)
                }
        }
}

/// Checks one fixture.
pub fn check_fixture<C>(l: &Loaded<C>, table: &FareTable<u64>, f: &Fixture) -> (r: Result<
    Verdict,
    NoPrice,
>)
    requires
        searchable(*l),
    ensures
        is_verdict(*l, *table, *f, r),
{
    let ghost g = l.graph@;
    let n: usize = l.graph.node_count();
    let from: u32 = match find_station(&l.stations, f.from) {
        Ok(i) => i,
        Err(e) => {
            return Ok(Verdict::Skipped(e));
        },
    };
    assert(is_found(l.stations@, f.from@, Ok::<u32, NameError>(from)));
    let to: u32 = match find_station(&l.stations, f.to) {
        Ok(i) => i,
        Err(e) => {
            return Ok(Verdict::Skipped(e));
        },
    };
    proof {
        law_rides_stay_indexed(g, l.zones@, from as int);
        assert(g.zones[from as int] < l.zones@.len());
    }
    let result = search(&l.graph, &l.zones, from);
    proof {
        if result.weights@[to as int] is Some {
            lemma_best_indexed(g, l.zones@, from as int, result, to as int);
        }
    }
    let r = judge(&l.zones, table, f, &result, to);
    assert(judges(l.zones@, *table, *f, result, to as int, r));
    r
}

/// The zones of the cheapest ride found have numbers.
proof fn lemma_best_indexed(
    g: crate::graph::GraphModel,
    numbers: Seq<u32>,
    source: int,
    result: SearchResult,
    v: int,
)
    requires
        crate::search::rides_indexed(g, numbers, source),
        weights_attained(g, numbers, source, result),
        0 <= v < g.size(),
        result.weights@[v] is Some,
    ensures
        result.best_sets@[v] is Some,
        indexed(numbers, result.best_sets@[v]->0@),
{
    assert(result.best_sets@[v] is Some);
    let set = result.best_sets@[v]->0;
    assert(crate::search::attainable(g, source, v, set.0));
    let ride = choose|ride: Seq<int>| crate::search::ride_to(g, source, v, set.0, ride);
    assert(crate::search::is_ride(g, source, ride));
}

/// Whether every fixture passes.
pub open spec fn all_pass(verdicts: Seq<Verdict>) -> bool {
    forall|i: int| 0 <= i < verdicts.len() ==> passes(#[trigger] verdicts[i])
}

fn verdict_passes(v: &Verdict) -> (r: bool)
    ensures
        r == passes(*v),
{
    match v {
        Verdict::Priced { good, .. } => *good,
        _ => false,
    }
}

/// What checking a list of fixtures gives.
#[derive(Debug)]
pub struct Checked {
    /// One verdict per fixture.
    pub verdicts: Vec<Verdict>,
    /// Whether every fixture passes.
    pub all_good: bool,
}

/// Whether the first `i` fixtures have a price and the next one has none.
pub open spec fn first_unpriced<C>(
    l: Loaded<C>,
    table: FareTable<u64>,
    list: Seq<Fixture>,
    i: int,
    e: NoPrice,
) -> bool {
    &&& 0 <= i < list.len()
    &&& is_verdict(l, table, list[i], Err::<Verdict, NoPrice>(e))
    &&& forall|j: int| 0 <= j < i ==> has_verdict(l, table, #[trigger] list[j])
}

/// Whether some fixture is the first without a price.
pub open spec fn ends_unpriced<C>(
    l: Loaded<C>,
    table: FareTable<u64>,
    list: Seq<Fixture>,
    e: NoPrice,
) -> bool {
    exists|i: int| #[trigger] first_unpriced(l, table, list, i, e)
}

/// Whether a fixture comes out at all.
pub open spec fn has_verdict<C>(l: Loaded<C>, table: FareTable<u64>, f: Fixture) -> bool {
    exists|v: Verdict| is_verdict(l, table, f, Ok::<Verdict, NoPrice>(v))
}

/// Checks every fixture, up to the first whose weight has no price.
pub fn check_fixtures<C>(l: &Loaded<C>, table: &FareTable<u64>, list: &Vec<Fixture>) -> (r: Result<
    Checked,
    NoPrice,
>)
    requires
        searchable(*l),
    ensures
        match r {
            Ok(c) => {
                &&& c.verdicts@.len() == list@.len()
                &&& forall|i: int|
                    0 <= i < list@.len() ==> is_verdict(
                        *l,
                        *table,
                        list@[i],
                        Ok::<Verdict, NoPrice>(#[trigger] c.verdicts@[i]),
                    )
                &&& c.all_good == all_pass(c.verdicts@)
            },
            Err(e) => ends_unpriced(*l, *table, list@, e),
        },
{
    let mut verdicts: Vec<Verdict> = Vec::new();
    let mut all_good: bool = true;
    let mut i: usize = 0;
    while i < list.len()
        invariant
            searchable(*l),
            i <= list@.len(),
            verdicts@.len() == i,
            forall|k: int|
                0 <= k < i ==> is_verdict(
                    *l,
                    *table,
                    list@[k],
                    Ok::<Verdict, NoPrice>(#[trigger] verdicts@[k]),
                ),
            all_good == all_pass(verdicts@),
        decreases list@.len() - i,
    {
        match check_fixture(l, table, &list[i]) {
            Ok(v) => {
                let good = verdict_passes(&v);
                let ghost before = verdicts@;
                verdicts.push(v);
                proof {
                    assert(verdicts@.last() == v);
                    assert forall|k: int| 0 <= k < before.len() implies verdicts@[k] == #[trigger] before[k] by {}
                    if all_pass(verdicts@) {
                        assert(passes(verdicts@[i as int]));
                        assert forall|k: int| 0 <= k < before.len() implies passes(
                            #[trigger] before[k],
                        ) by {
                            assert(passes(verdicts@[k]));
                        }
                    }
                }
                all_good = all_good && good;
            },
            Err(e) => {
                proof {
                    assert forall|j: int| 0 <= j < i implies has_verdict(
                        *l,
                        *table,
                        #[trigger] list@[j],
                    ) by {
                        assert(is_verdict(
                            *l,
                            *table,
                            list@[j],
                            Ok::<Verdict, NoPrice>(verdicts@[j]),
                        ));
                    }
                    assert(first_unpriced(*l, *table, list@, i as int, e));
                    assert(ends_unpriced(*l, *table, list@, e));
                }
                return Err(e);
            },
        }
        i = i + 1;
    }
    Ok(Checked { verdicts, all_good })
}

// ----------------------------------------------------------- label growth

/// The distance between two sampled origins.
pub open spec fn sample_step(n: nat, sample: nat) -> nat {
    let step = if sample < 1 {
        n
    } else {
        n / sample
    };
    if step < 1 {
        1
    } else {
        step
    }
}

/// Whether a list holds every `step`-th of `n` nodes, the first included.
pub open spec fn samples_nodes(n: nat, step: nat, origins: Seq<u32>) -> bool {
    &&& forall|i: int|
        0 <= i < origins.len() ==> #[trigger] origins[i] == i * step && origins[i] < n
    &&& origins.len() * step >= n
}

/// The origins to measure: about `sample` of `n` nodes, evenly spread.
pub fn sample_origins(n: usize, sample: usize) -> (r: Vec<u32>)
    requires
        n <= u32::MAX,
    ensures
        samples_nodes(n as nat, sample_step(n as nat, sample as nat), r@),
{
    let parts: usize = if sample < 1 {
        1
    } else {
        sample
    };
    let mut step: usize = n / parts;
    if step < 1 {
        step = 1;
    }
    let mut out: Vec<u32> = Vec::new();
    let mut next: usize = 0;
    assert(0 * step == 0) by (nonlinear_arith);
    while next < n
        invariant
            n <= u32::MAX,
            step == sample_step(n as nat, sample as nat),
            step >= 1,
            step <= n || step == 1,
            next == out@.len() * step,
            forall|i: int| 0 <= i < out@.len() ==> #[trigger] out@[i] == i * step && out@[i] < n,
        decreases n - next,
    {
        out.push(next as u32);
        assert((out@.len() - 1) * step + step == out@.len() * step) by (nonlinear_arith);
        if next > n - step {
            assert(next + step >= n);
            assert(out@.len() * step >= n);
            return out;
        }
        next = next + step;
    }
    out
}

/// How a capped run differs from an exact one over the first `k` stations: how
/// many are priced differently.
pub open spec fn differing(capped: Seq<Option<u32>>, exact: Seq<Option<u32>>, k: nat) -> nat
    decreases k,
{
    if k == 0 {
        0
    } else {
        differing(capped, exact, (k - 1) as nat) + if capped[k - 1] != exact[k - 1] {
            1nat
        } else {
            0
        }
    }
}

/// By how many zones a capped price exceeds an exact one, nothing where it does
/// not or there is none.
pub open spec fn overcharge(capped: Option<u32>, exact: Option<u32>) -> nat {
    match (capped, exact) {
        (Some(c), Some(t)) => if c > t {
            (c - t) as nat
        } else {
            0
        },
        _ => 0,
    }
}

/// The worst overcharge over the first `k` stations, no less than `least`.
pub open spec fn worst_over(
    capped: Seq<Option<u32>>,
    exact: Seq<Option<u32>>,
    k: nat,
    least: nat,
) -> nat
    decreases k,
{
    if k == 0 {
        least
    } else {
        let rest = worst_over(capped, exact, (k - 1) as nat, least);
        let here = overcharge(capped[k - 1], exact[k - 1]);
        if here > rest {
            here
        } else {
            rest
        }
    }
}

/// The measurements over a number of origins.
#[derive(Debug)]
pub struct Growth {
    /// The largest frontier of a capped run, and the first origin that has it.
    pub max_labels: usize,
    pub worst_origin: u32,
    pub cap_hits: u128,
    /// The mean frontier of each capped run.
    pub means: Vec<LabelMean>,
    /// The largest frontier of an exact run.
    pub max_uncapped: usize,
    /// The mean frontier of each exact run.
    pub means_uncapped: Vec<LabelMean>,
    /// Origins and pairs of stations where the cap changes an answer.
    pub differing_origins: usize,
    pub differing_pairs: u128,
    /// By how many zones the cap overcharges at most.
    pub worst_overcharge: u32,
}

/// The largest of a list of counts, zero where it is empty.
pub open spec fn most_labels(counts: Seq<usize>, k: nat) -> nat
    decreases k,
{
    if k == 0 {
        0
    } else {
        let rest = most_labels(counts, (k - 1) as nat);
        if counts[k - 1] > rest {
            counts[k - 1] as nat
        } else {
            rest
        }
    }
}

/// The mean of a list of counts.
pub open spec fn mean_of(counts: Seq<usize>) -> LabelMean {
    LabelMean {
        labels: label_sum(counts, counts.len()) as u128,
        stations: reached_count(counts, counts.len()) as usize,
    }
}

/// Measurements with one more origin: its capped and its exact run.
pub open spec fn measured_with(
    before: Growth,
    origin: u32,
    capped: SearchResult,
    exact: SearchResult,
    after: Growth,
) -> bool {
    let most = most_labels(capped.label_counts@, capped.label_counts@.len());
    let most_exact = most_labels(exact.label_counts@, exact.label_counts@.len());
    let n = capped.weights@.len();
    let pairs = differing(capped.weights@, exact.weights@, n);
    &&& after.max_labels == if most > before.max_labels {
        most
    } else {
        before.max_labels as nat
    }
    &&& after.worst_origin == if most > before.max_labels {
        origin
    } else {
        before.worst_origin
    }
    &&& after.cap_hits == before.cap_hits + capped.cap_hits
    &&& after.means@ == before.means@.push(mean_of(capped.label_counts@))
    &&& after.max_uncapped == if most_exact > before.max_uncapped {
        most_exact
    } else {
        before.max_uncapped as nat
    }
    &&& after.means_uncapped@ == before.means_uncapped@.push(mean_of(exact.label_counts@))
    &&& after.differing_origins == before.differing_origins + if pairs > 0 {
        1nat
    } else {
        0
    }
    &&& after.differing_pairs == before.differing_pairs + pairs
    &&& after.worst_overcharge == worst_over(
        capped.weights@,
        exact.weights@,
        n,
        before.worst_overcharge as nat,
    )
}

proof fn lemma_most_labels(counts: Seq<usize>, k: nat, most: usize)
    requires
        k <= counts.len(),
        forall|v: int| 0 <= v < k ==> #[trigger] counts[v] <= most,
        k == 0 ==> most == 0,
        k > 0 ==> exists|v: int| 0 <= v < k && #[trigger] counts[v] == most,
    ensures
        most_labels(counts, k) == most,
    decreases k,
{
    lemma_most_bounds(counts, k, most);
    if k > 0 {
        let v = choose|v: int| 0 <= v < k && #[trigger] counts[v] == most;
        lemma_most_at_least(counts, k, v);
    }
}

proof fn lemma_most_bounds(counts: Seq<usize>, k: nat, most: usize)
    requires
        k <= counts.len(),
        forall|v: int| 0 <= v < k ==> #[trigger] counts[v] <= most,
    ensures
        most_labels(counts, k) <= most,
    decreases k,
{
    if k > 0 {
        lemma_most_bounds(counts, (k - 1) as nat, most);
    }
}

proof fn lemma_most_at_least(counts: Seq<usize>, k: nat, v: int)
    requires
        0 <= v < k <= counts.len(),
    ensures
        most_labels(counts, k) >= counts[v],
    decreases k,
{
    if v < k - 1 {
        lemma_most_at_least(counts, (k - 1) as nat, v);
    }
}

fn most_of(result: &SearchResult) -> (r: usize)
    ensures
        r == most_labels(result.label_counts@, result.label_counts@.len()),
{
    let r: usize = result.max_labels();
    proof {
        let counts = result.label_counts@;
        if counts.len() > 0 {
            let v = choose|v: int| 0 <= v < counts.len() && counts[v] == r;
            assert(counts[v] == r);
        }
        lemma_most_labels(counts, counts.len(), r);
    }
    r
}

impl Growth {
    /// No measurements yet.
    pub fn new() -> (r: Growth)
        ensures
            r.max_labels == 0,
            r.worst_origin == 0,
            r.cap_hits == 0,
            r.means@.len() == 0,
            r.max_uncapped == 0,
            r.means_uncapped@.len() == 0,
            r.differing_origins == 0,
            r.differing_pairs == 0,
            r.worst_overcharge == 0,
    {
        Growth {
            max_labels: 0,
            worst_origin: 0,
            cap_hits: 0,
            means: Vec::new(),
            max_uncapped: 0,
            means_uncapped: Vec::new(),
            differing_origins: 0,
            differing_pairs: 0,
            worst_overcharge: 0,
        }
    }

    /// Notes the capped and the exact run from one origin.
    pub fn note(&mut self, origin: u32, capped: &SearchResult, exact: &SearchResult)
        requires
            capped.weights@.len() == exact.weights@.len(),
            old(self).cap_hits + u64::MAX <= u128::MAX,
            old(self).differing_pairs + capped.weights@.len() <= u128::MAX,
            old(self).differing_origins < usize::MAX,
        ensures
            measured_with(*old(self), origin, *capped, *exact, *final(self)),
    {
        let most: usize = most_of(capped);
        if most > self.max_labels {
            self.max_labels = most;
            self.worst_origin = origin;
        }
        self.cap_hits = self.cap_hits + capped.cap_hits as u128;
        self.means.push(capped.mean_labels());
        let most_exact: usize = most_of(exact);
        if most_exact > self.max_uncapped {
            self.max_uncapped = most_exact;
        }
        self.means_uncapped.push(exact.mean_labels());
        let n: usize = capped.weights.len();
        let mut pairs: usize = 0;
        let mut worst: u32 = self.worst_overcharge;
        let ghost least = worst as nat;
        let mut v: usize = 0;
        while v < n
            invariant
                n == capped.weights@.len(),
                n == exact.weights@.len(),
                v <= n,
                pairs <= v,
                pairs == differing(capped.weights@, exact.weights@, v as nat),
                worst == worst_over(capped.weights@, exact.weights@, v as nat, least),
            decreases n - v,
        {
            let c = capped.weights[v];
            let t = exact.weights[v];
            match (c, t) {
                (Some(x), Some(y)) => {
                    if x != y {
                        pairs = pairs + 1;
                    }
                    if x > y && x - y > worst {
                        worst = x - y;
                    }
                },
                (None, None) => {},
                _ => {
                    pairs = pairs + 1;
                },
            }
            v = v + 1;
        }
        self.worst_overcharge = worst;
        self.differing_pairs = self.differing_pairs + pairs as u128;
        if pairs > 0 {
            self.differing_origins = self.differing_origins + 1;
        }
    }
}

/// Whether `run` is what a search from an origin gives under a cap.
pub open spec fn is_run<C>(l: Loaded<C>, origin: u32, cap: nat, run: SearchResult) -> bool {
    is_outcome(l.graph@, l.zones@, origin as int, cap, run)
}

/// Whether measurements are those of the first origins: each has a capped and an
/// exact run, and `steps` are the measurements after each of them.
pub open spec fn measures<C>(
    l: Loaded<C>,
    origins: Seq<u32>,
    cap: nat,
    capped: Seq<SearchResult>,
    exact: Seq<SearchResult>,
    steps: Seq<Growth>,
) -> bool {
    &&& capped.len() == origins.len()
    &&& exact.len() == origins.len()
    &&& steps.len() == origins.len() + 1
    &&& is_blank(steps[0])
    &&& forall|i: int|
        #![trigger capped[i]]
        #![trigger exact[i]]
        0 <= i < origins.len() ==> {
            &&& is_run(l, origins[i], cap, capped[i])
            &&& is_run(l, origins[i], usize::MAX as nat, exact[i])
            &&& measured_with(steps[i], origins[i], capped[i], exact[i], steps[i + 1])
        }
}

/// Whether nothing has been measured.
pub open spec fn is_blank(g: Growth) -> bool {
    &&& g.max_labels == 0
    &&& g.worst_origin == 0
    &&& g.cap_hits == 0
    &&& g.means@.len() == 0
    &&& g.max_uncapped == 0
    &&& g.means_uncapped@.len() == 0
    &&& g.differing_origins == 0
    &&& g.differing_pairs == 0
    &&& g.worst_overcharge == 0
}

/// What measuring a model gives.
#[derive(Debug)]
pub struct GrowthReport {
    pub origins: Vec<u32>,
    pub growth: Growth,
}

/// Whether a report is that of a model.
pub open spec fn is_report<C>(l: Loaded<C>, sample: nat, cap: nat, r: GrowthReport) -> bool {
    &&& samples_nodes(l.graph@.size(), sample_step(l.graph@.size(), sample), r.origins@)
    &&& exists|capped: Seq<SearchResult>, exact: Seq<SearchResult>, steps: Seq<Growth>|
        #[trigger] measures(l, r.origins@, cap, capped, exact, steps) && steps.last() == r.growth
}

/// Measures how the frontier grows, and whether the cap ever changes an answer,
/// over about `sample` origins.
pub fn report_label_growth<C>(l: &Loaded<C>, sample: usize, cap: usize) -> (r: GrowthReport)
    requires
        searchable(*l),
    ensures
        is_report(*l, sample as nat, cap as nat, r),
{
    let n: usize = l.graph.node_count();
    let origins = sample_origins(n, sample);
    let ghost step = sample_step(n as nat, sample as nat);
    let mut growth = Growth::new();
    let ghost mut runs: Seq<SearchResult> = Seq::empty();
    let ghost mut truths: Seq<SearchResult> = Seq::empty();
    let ghost mut steps: Seq<Growth> = seq![growth];
    let mut i: usize = 0;
    while i < origins.len()
        invariant
            searchable(*l),
            n == l.graph@.size(),
            n <= u32::MAX,
            i <= origins@.len(),
            forall|k: int| 0 <= k < origins@.len() ==> #[trigger] origins@[k] < n,
            measures(*l, origins@.take(i as int), cap as nat, runs, truths, steps),
            steps.last() == growth,
            growth.cap_hits <= i * u64::MAX,
            growth.differing_pairs <= i * u32::MAX,
            growth.differing_origins <= i,
        decreases origins@.len() - i,
    {
        let o: u32 = origins[i];
        proof {
            law_rides_stay_indexed(l.graph@, l.zones@, o as int);
            assert(l.graph@.zones[o as int] < l.zones@.len());
            assert(i * u64::MAX + u64::MAX == (i + 1) * u64::MAX) by (nonlinear_arith);
            assert(i * u32::MAX + u32::MAX == (i + 1) * u32::MAX) by (nonlinear_arith);
            assert(i * u64::MAX + u64::MAX <= u128::MAX) by (nonlinear_arith)
                requires
                    0 <= i <= 0xffff_ffff_ffff_ffff,
            ;
            assert(i * u32::MAX + u32::MAX <= u128::MAX) by (nonlinear_arith)
                requires
                    0 <= i <= 0xffff_ffff_ffff_ffff,
            ;
        }
        let capped = search_capped(&l.graph, &l.zones, o, cap);
        let exact = search_capped(&l.graph, &l.zones, o, usize::MAX);
        let ghost before = growth;
        growth.note(o, &capped, &exact);
        proof {
            lemma_differing_bound(capped.weights@, exact.weights@, n as nat);
            let old_runs = runs;
            let old_truths = truths;
            let old_steps = steps;
            runs = runs.push(capped);
            truths = truths.push(exact);
            steps = steps.push(growth);
            let part = origins@.take(i as int);
            let longer = origins@.take(i + 1);
            assert forall|k: int|
                #![trigger runs[k]]
                #![trigger truths[k]]
                0 <= k < longer.len() implies {
                &&& is_run(*l, longer[k], cap as nat, runs[k])
                &&& is_run(*l, longer[k], usize::MAX as nat, truths[k])
                &&& measured_with(steps[k], longer[k], runs[k], truths[k], steps[k + 1])
            } by {
                if k < i {
                    assert(old_runs[k] == runs[k] && old_truths[k] == truths[k]);
                    assert(longer[k] == part[k]);
                    assert(steps[k] == old_steps[k] && steps[k + 1] == old_steps[k + 1]);
                } else {
                    assert(steps[k] == before);
                }
            }
        }
        i = i + 1;
    }
    assert(origins@.take(i as int) =~= origins@);
    let r = GrowthReport { origins, growth };
    proof {
        assert(samples_nodes(l.graph@.size(), step, r.origins@));
        assert(measures(*l, r.origins@, cap as nat, runs, truths, steps));
        assert(steps.last() == r.growth);
        assert(is_report(*l, sample as nat, cap as nat, r));
    }
    r
}

proof fn lemma_differing_bound(capped: Seq<Option<u32>>, exact: Seq<Option<u32>>, k: nat)
    ensures
        differing(capped, exact, k) <= k,
    decreases k,
{
    if k > 0 {
        lemma_differing_bound(capped, exact, (k - 1) as nat);
    }
}

/// Where no pair is priced differently, the cap changes no fare at all.
pub proof fn law_no_difference_means_exact(
    capped: Seq<Option<u32>>,
    exact: Seq<Option<u32>>,
    k: nat,
    v: int,
)
    requires
        differing(capped, exact, k) == 0,
        0 <= v < k,
    ensures
        capped[v] == exact[v],
    decreases k,
{
    if v < k - 1 {
        law_no_difference_means_exact(capped, exact, (k - 1) as nat, v);
    }
}

// ------------------------------------------------------------------- dump

/// A weight as it is dumped: -1 where a station is unreachable.
pub open spec fn dumped(weight: Option<u32>) -> int {
    match weight {
        Some(w) => w as int,
        None => -1,
    }
}

/// The weights of one origin as they are dumped.
pub fn dump_row(weights: &Vec<Option<u32>>) -> (r: Vec<i64>)
    ensures
        r@.len() == weights@.len(),
        forall|v: int| 0 <= v < r@.len() ==> #[trigger] r@[v] == dumped(weights@[v]),
{
    let mut out: Vec<i64> = Vec::new();
    let mut v: usize = 0;
    while v < weights.len()
        invariant
            v <= weights@.len(),
            out@.len() == v,
            forall|x: int| 0 <= x < v ==> #[trigger] out@[x] == dumped(weights@[x]),
        decreases weights@.len() - v,
    {
        match weights[v] {
            Some(w) => {
                out.push(w as i64);
            },
            None => {
                out.push(-1);
            },
        }
        v = v + 1;
    }
    out
}

/// Whether a row is the dump of what a search from an origin gives.
pub open spec fn is_dump<C>(l: Loaded<C>, origin: u32, row: Seq<i64>) -> bool {
    exists|run: SearchResult|
        #[trigger] is_run(l, origin, LABEL_CAP as nat, run) && {
            &&& row.len() == run.weights@.len()
            &&& forall|v: int| 0 <= v < row.len() ==> #[trigger] row[v] == dumped(run.weights@[v])
        }
}

/// Dump `origin -> [min zone weight per station]` for about `sample` origins, so
/// that other implementations of the search can be compared over every station
/// pair and not just the fixtures.
pub fn dump<C>(l: &Loaded<C>, sample: usize) -> (r: Vec<(u32, Vec<i64>)>)
    requires
        searchable(*l),
    ensures
        dumps(*l, sample as nat, r@),
{
    let n: usize = l.graph.node_count();
    let origins = sample_origins(n, sample);
    let mut out: Vec<(u32, Vec<i64>)> = Vec::new();
    let mut i: usize = 0;
    while i < origins.len()
        invariant
            searchable(*l),
            n == l.graph@.size(),
            n <= u32::MAX,
            i <= origins@.len(),
            forall|k: int| 0 <= k < origins@.len() ==> #[trigger] origins@[k] < n,
            out@.len() == i,
            forall|k: int| 0 <= k < i ==> (#[trigger] out@[k]).0 == origins@[k],
            forall|k: int| 0 <= k < i ==> is_dump(*l, (#[trigger] out@[k]).0, out@[k].1@),
        decreases origins@.len() - i,
    {
        let o: u32 = origins[i];
        proof {
            law_rides_stay_indexed(l.graph@, l.zones@, o as int);
            assert(l.graph@.zones[o as int] < l.zones@.len());
        }
        let result = search(&l.graph, &l.zones, o);
        let row = dump_row(&result.weights);
        assert(is_run(*l, o, LABEL_CAP as nat, result));
        assert(is_dump(*l, o, row@));
        out.push((o, row));
        i = i + 1;
    }
    assert(Seq::new(out@.len(), |i: int| out@[i].0) =~= origins@);
    out
}

// -------------------------------------------------------------------- run

/// What validating a model gives.
#[derive(Debug)]
pub struct Report {
    pub checked: Checked,
    pub growth: GrowthReport,
    /// The weights from every sampled origin, where they are asked for.
    pub dump: Option<Vec<(u32, Vec<i64>)>>,
}

/// Why validating a model fails.
#[derive(Debug)]
pub enum RunError {
    /// A weight that the fare table has no price for.
    NoPrice(NoPrice),
    /// Some fixture does not pass: the graph or the zone assignment is wrong.
    FixturesFailed(Report),
}

/// Whether a report is that of a model.
pub open spec fn reports_on<C>(
    l: Loaded<C>,
    table: FareTable<u64>,
    list: Seq<Fixture>,
    sample: nat,
    cap: nat,
    dumping: bool,
    r: Report,
) -> bool {
    &&& r.checked.verdicts@.len() == list.len()
    &&& forall|i: int|
        0 <= i < list.len() ==> is_verdict(
            l,
            table,
            list[i],
            Ok::<Verdict, NoPrice>(#[trigger] r.checked.verdicts@[i]),
        )
    &&& r.checked.all_good == all_pass(r.checked.verdicts@)
    &&& is_report(l, sample, cap, r.growth)
    &&& match r.dump {
        Some(rows) => dumping && dumps(l, sample, rows@),
        None => !dumping,
    }
}

/// Whether rows are the dump of a model.
pub open spec fn dumps<C>(l: Loaded<C>, sample: nat, rows: Seq<(u32, Vec<i64>)>) -> bool {
    &&& samples_nodes(
        l.graph@.size(),
        sample_step(l.graph@.size(), sample),
        Seq::new(rows.len(), |i: int| rows[i].0),
    )
    &&& forall|i: int| 0 <= i < rows.len() ==> is_dump(l, (#[trigger] rows[i]).0, rows[i].1@)
}

/// Checks every fixture, measures the label growth and dumps the results where
/// that is asked for. It fails where a weight has no price, and otherwise, after
/// everything has been reported, where any fixture does not pass.
pub fn run<C>(
    l: &Loaded<C>,
    table: &FareTable<u64>,
    list: &Vec<Fixture>,
    sample: usize,
    cap: usize,
    dumping: bool,
) -> (r: Result<Report, RunError>)
    requires
        searchable(*l),
    ensures
        match r {
            Ok(report) => {
                &&& reports_on(*l, *table, list@, sample as nat, cap as nat, dumping, report)
                &&& report.checked.all_good
            },
            Err(RunError::FixturesFailed(report)) => {
                &&& reports_on(*l, *table, list@, sample as nat, cap as nat, dumping, report)
                &&& !report.checked.all_good
            },
            Err(RunError::NoPrice(e)) => ends_unpriced(*l, *table, list@, e),
        },
{
    let checked = match check_fixtures(l, table, list) {
        Ok(checked) => checked,
        Err(e) => {
            return Err(RunError::NoPrice(e));
        },
    };
    let growth = report_label_growth(l, sample, cap);
    let rows = if dumping {
        Some(dump(l, sample))
    } else {
        None
    };
    let good = checked.all_good;
    let report = Report { checked, growth, dump: rows };
    assert(reports_on(*l, *table, list@, sample as nat, cap as nat, dumping, report));
    if good {
        Ok(report)
    } else {
        Err(RunError::FixturesFailed(report))
    }
}

// ------------------------------------------------------ what the checks mean

/// Which station a name means: the first with exactly this name; without one, the only
/// station whose name begins with it; otherwise it is unknown, or ambiguous, and then
/// the first six such names are told.
pub proof fn law_a_name_means_one_station<C>(
    stations: Seq<Station<C>>,
    name: Seq<char>,
    r: Result<u32, NameError>,
)
    requires
        is_found(stations, name, r),
        stations.len() <= u32::MAX,
    ensures
        ({
            let exact = exists|i: int|
                0 <= i < stations.len() && (#[trigger] stations[i]).name@ == name;
            let begun = Seq::new(stations.len(), |i: int| i).filter(
                |i: int| name.is_prefix_of(stations[i].name@),
            );
            match r {
                Ok(i) => i < stations.len() && if exact {
                    &&& stations[i as int].name@ == name
                    &&& forall|j: int| 0 <= j < i ==> (#[trigger] stations[j]).name@ != name
                } else {
                    begun.len() == 1 && i == begun[0]
                },
                Err(NameError::Unknown) => !exact && begun.len() == 0,
                Err(NameError::Ambiguous(names)) => {
                    &&& !exact
                    &&& begun.len() >= 2
                    &&& names@.len() == if begun.len() >= 6 {
                        6
                    } else {
                        begun.len()
                    }
                    &&& forall|k: int|
                        0 <= k < names@.len() ==> (#[trigger] names@[k])@ == stations[begun[k]].name@
                },
            }
        }),
{
    let n = stations.len();
    let all = Seq::new(n, |i: int| i);
    let begun = all.filter(|i: int| name.is_prefix_of(stations[i].name@));
    let found = starting_with(stations, name, n);
    lemma_starting_with(stations, name, n);
    assert(found == Seq::new(begun.len(), |i: int| begun[i] as usize));
    lemma_begun_in_range(stations, name, n);
    let exact = exists|i: int| 0 <= i < stations.len() && (#[trigger] stations[i]).name@ == name;
    if exact {
        let i = choose|i: int| 0 <= i < stations.len() && (#[trigger] stations[i]).name@ == name;
        assert(!none_named(stations, name)) by {
            assert(stations[i].name@ == name);
        }
    } else {
        assert(none_named(stations, name));
        match r {
            Ok(i) => {
                assert(!is_first_named(stations, name, i as int)) by {
                    if is_first_named(stations, name, i as int) {
                        assert(stations[i as int].name@ == name);
                    }
                }
                assert(found == seq![i as usize]);
                assert(found[0] == i as usize);
                assert(begun.len() == 1);
                assert(0 <= begun[0] < n);
            },
            Err(NameError::Unknown) => {},
            Err(NameError::Ambiguous(names)) => {
                let told = first_names(stations, found);
                assert(texts(names@) == told);
                assert(texts(names@).len() == names@.len());
                assert forall|k: int| 0 <= k < names@.len() implies (#[trigger] names@[k])@
                    == stations[begun[k]].name@ by {
                    assert(texts(names@)[k] == told[k]);
                    assert(found[k] == begun[k] as usize);
                    assert(0 <= begun[k] < n);
                }
            },
        }
    }
}

proof fn lemma_starting_with<C>(stations: Seq<Station<C>>, name: Seq<char>, k: nat)
    requires
        k <= stations.len(),
    ensures
        ({
            let begun = Seq::new(k, |i: int| i).filter(
                |i: int| name.is_prefix_of(stations[i].name@),
            );
            starting_with(stations, name, k) == Seq::new(begun.len(), |i: int| begun[i] as usize)
        }),
    decreases k,
{
    reveal(Seq::filter);
    let all = Seq::new(k, |i: int| i);
    let begun = all.filter(|i: int| name.is_prefix_of(stations[i].name@));
    if k > 0 {
        lemma_starting_with(stations, name, (k - 1) as nat);
        assert(all.drop_last() =~= Seq::new((k - 1) as nat, |i: int| i));
        assert(all.last() == k - 1);
    } else {
        assert(all =~= Seq::empty());
    }
    assert(starting_with(stations, name, k) =~= Seq::new(
        begun.len(),
        |i: int| begun[i] as usize,
    ));
}

proof fn lemma_begun_in_range<C>(stations: Seq<Station<C>>, name: Seq<char>, k: nat)
    requires
        k <= stations.len(),
    ensures
        ({
            let begun = Seq::new(k, |i: int| i).filter(
                |i: int| name.is_prefix_of(stations[i].name@),
            );
            forall|i: int| 0 <= i < begun.len() ==> 0 <= #[trigger] begun[i] < k
        }),
    decreases k,
{
    reveal(Seq::filter);
    let all = Seq::new(k, |i: int| i);
    if k > 0 {
        lemma_begun_in_range(stations, name, (k - 1) as nat);
        assert(all.drop_last() =~= Seq::new((k - 1) as nat, |i: int| i));
        assert(all.last() == k - 1);
        let test = |i: int| name.is_prefix_of(stations[i].name@);
        let before = all.drop_last().filter(test);
        assert(all.filter(test) =~= if test(k - 1) {
            before.push(k - 1)
        } else {
            before
        });
    } else {
        assert(all =~= Seq::empty());
    }
}

/// What a verdict on a known fare says. It is unreachable where the search found no
/// way; otherwise it tells the zones found, the full second-class price of their
/// Tarifstufe and the numbers of the zones paid for, and it is good exactly when both
/// the zones and the price are the expected ones.
pub proof fn law_a_verdict_compares_zones_and_price(
    numbers: Seq<u32>,
    table: FareTable<u64>,
    f: Fixture,
    result: SearchResult,
    to: int,
    r: Result<Verdict, NoPrice>,
    row: int,
)
    requires
        judges(numbers, table, f, result, to, r),
    ensures
        result.weights@[to] is None <==> r matches Ok(Verdict::Unreachable),
        r matches Err(e) ==> result.weights@[to] == Some(e.weight),
        r matches Ok(Verdict::Priced { zones, rappen, paid, good }) ==> {
            &&& result.weights@[to] == Some(zones)
            &&& good <==> zones == f.zones && rappen == f.rappen
            &&& forall|i: int, j: int|
                #![trigger paid@[i], paid@[j]]
                0 <= i < j < paid@.len() ==> paid@[i] < paid@[j]
            &&& forall|number: u32| #[trigger]
                paid@.contains(number) <==> exists|b: int|
                    0 <= b < numbers.len() && #[trigger] numbers[b] == number
                        && result.best_sets@[to]->0@.contains(b)
            &&& {
                &&& 0 <= row < table.stufen@.len()
                &&& table.stufen@[row].stufe == if zones == 0 {
                    1
                } else if zones > 8 {
                    8
                } else {
                    zones
                }
                &&& forall|j: int|
                    0 <= j < row ==> (#[trigger] table.stufen@[j]).stufe
                        != table.stufen@[row].stufe
            } ==> rappen == table.stufen@[row].prices.second
        },
{
    if let Ok(Verdict::Priced { zones, rappen, paid, good }) = r {
        assert(lists_set(numbers, result.best_sets@[to]->0@, paid@));
        if {
            &&& 0 <= row < table.stufen@.len()
            &&& table.stufen@[row].stufe == if zones == 0 {
                1
            } else if zones > 8 {
                8
            } else {
                zones
            }
            &&& forall|j: int|
                0 <= j < row ==> (#[trigger] table.stufen@[j]).stufe != table.stufen@[row].stufe
        } {
            assert(is_first_row(table.stufen@, stufe_of(zones), row)) by {
                assert forall|j: int| 0 <= j < row implies #[trigger] table.stufen@[j].stufe
                    != stufe_of(zones) by {
                    assert(table.stufen@[j].stufe != table.stufen@[row].stufe);
                }
            }
        }
    }
}

/// All is good when every verdict is a price that was expected.
pub proof fn law_all_good_means_every_one(verdicts: Seq<Verdict>)
    ensures
        all_pass(verdicts) <==> forall|i: int|
            0 <= i < verdicts.len() ==> ((#[trigger] verdicts[i]) is Priced && verdicts[i]->good),
{
    if all_pass(verdicts) {
        assert forall|i: int| 0 <= i < verdicts.len() implies ((
        #[trigger] verdicts[i]) is Priced && verdicts[i]->good) by {
            assert(passes(verdicts[i]));
        }
    }
}

/// What a known fare is compared by.
pub proof fn law_a_fixture_is_its_fields(
    f: Fixture,
    from: &'static str,
    to: &'static str,
    zones: u32,
    rappen: u64,
)
    ensures
        expects(f, from, to, zones, rappen) <==> {
            &&& f.from == from
            &&& f.to == to
            &&& f.zones == zones
            &&& f.rappen == rappen
        },
{
}

/// Origins are sampled evenly: every station whose number is a multiple of the step,
/// and no other. The step is how often the sample goes into the stations, at least one.
pub proof fn law_origins_are_sampled_evenly(n: nat, sample: nat, origins: Seq<u32>, x: u32)
    requires
        samples_nodes(n, sample_step(n, sample), origins),
        n <= u32::MAX,
    ensures
        ({
            let step = if sample > 1 && sample <= n {
                n / sample
            } else if sample > n {
                1
            } else {
                n
            };
            let step = if step < 1 {
                1
            } else {
                step
            };
            &&& sample_step(n, sample) == step
            &&& origins.contains(x) <==> x < n && x as nat % step == 0
        }),
{
    let step = sample_step(n, sample);
    if sample > n {
        assert(n / sample == 0) by (nonlinear_arith)
            requires
                sample > n,
        ;
    }
    if sample == 1 {
        assert(n / sample == n) by (nonlinear_arith)
            requires
                sample == 1,
        ;
    }
    assert(step >= 1);
    if origins.contains(x) {
        let i = choose|i: int| 0 <= i < origins.len() && origins[i] == x;
        assert((i * step) % (step as int) == 0) by (nonlinear_arith)
            requires
                step >= 1,
        ;
    }
    if x < n && x as nat % step == 0 {
        let i = (x as nat / step) as int;
        assert(i * step == x) by (nonlinear_arith)
            requires
                step >= 1,
                x as nat % step == 0,
                i == x as nat / step,
        ;
        assert(i < origins.len()) by (nonlinear_arith)
            requires
                i * step == x,
                x < n,
                origins.len() * step >= n,
                step >= 1,
        ;
        assert(origins[i] == x);
    }
}

/// How many stations are priced differently: those at which the two weights differ.
pub proof fn law_differences_are_counted(
    capped: Seq<Option<u32>>,
    exact: Seq<Option<u32>>,
    k: nat,
)
    ensures
        differing(capped, exact, k) == Seq::new(k, |i: int| i).filter(
            |i: int| capped[i] != exact[i],
        ).len(),
    decreases k,
{
    reveal(Seq::filter);
    let all = Seq::new(k, |i: int| i);
    if k > 0 {
        law_differences_are_counted(capped, exact, (k - 1) as nat);
        assert(all.drop_last() =~= Seq::new((k - 1) as nat, |i: int| i));
        assert(all.last() == k - 1);
    } else {
        assert(all =~= Seq::empty());
    }
}

/// The worst overcharge is no less than any station's, nor than what was known before,
/// and is one of them.
pub proof fn law_the_worst_overcharge_is_the_largest(
    capped: Seq<Option<u32>>,
    exact: Seq<Option<u32>>,
    k: nat,
    least: nat,
)
    ensures
        worst_over(capped, exact, k, least) >= least,
        forall|v: int|
            #![trigger capped[v], exact[v]]
            0 <= v < k && capped[v] is Some && exact[v] is Some ==> capped[v]->0 - exact[v]->0
                <= worst_over(capped, exact, k, least),
        worst_over(capped, exact, k, least) > least ==> exists|v: int|
            #![trigger capped[v], exact[v]]
            0 <= v < k && capped[v] is Some && exact[v] is Some && capped[v]->0 - exact[v]->0
                == worst_over(capped, exact, k, least),
    decreases k,
{
    if k > 0 {
        law_the_worst_overcharge_is_the_largest(capped, exact, (k - 1) as nat, least);
        let rest = worst_over(capped, exact, (k - 1) as nat, least);
        let worst = worst_over(capped, exact, k, least);
        if worst > least {
            if worst == rest {
                let v = choose|v: int|
                    #![trigger capped[v], exact[v]]
                    0 <= v < k - 1 && capped[v] is Some && exact[v] is Some && capped[v]->0
                        - exact[v]->0 == rest;
                assert(capped[v]->0 - exact[v]->0 == worst);
            } else {
                let v = k - 1;
                assert(capped[v] is Some && exact[v] is Some && capped[v]->0 - exact[v]->0
                    == worst);
            }
        }
    }
}

/// The most labels are no fewer than any station's, and are some station's.
pub proof fn law_the_most_labels_are_the_largest(counts: Seq<usize>, k: nat)
    requires
        k <= counts.len(),
    ensures
        forall|v: int| 0 <= v < k ==> #[trigger] counts[v] <= most_labels(counts, k),
        most_labels(counts, k) > 0 ==> exists|v: int|
            0 <= v < k && #[trigger] counts[v] == most_labels(counts, k),
    decreases k,
{
    if k > 0 {
        law_the_most_labels_are_the_largest(counts, (k - 1) as nat);
        let rest = most_labels(counts, (k - 1) as nat);
        if most_labels(counts, k) > 0 {
            if counts[k - 1] > rest {
                assert(counts[k - 1] == most_labels(counts, k));
            } else {
                let v = choose|v: int| 0 <= v < k - 1 && #[trigger] counts[v] == rest;
                assert(counts[v] == most_labels(counts, k));
            }
        }
    }
}

/// What a measurement adds: the largest numbers of labels seen and where the capped one
/// was first seen, the hits of the cap, a mean per origin, and how many pairs, and
/// origins with any, are priced differently.
pub proof fn law_a_measurement_adds_its_origin(
    before: Growth,
    origin: u32,
    capped: SearchResult,
    exact: SearchResult,
    after: Growth,
)
    requires
        measured_with(before, origin, capped, exact, after),
    ensures
        ({
            let most = most_labels(capped.label_counts@, capped.label_counts@.len());
            let more = most_labels(exact.label_counts@, exact.label_counts@.len());
            let pairs = differing(capped.weights@, exact.weights@, capped.weights@.len());
            &&& after.max_labels >= before.max_labels && after.max_labels >= most
            &&& after.max_labels == before.max_labels || after.max_labels == most
            &&& most > before.max_labels ==> after.worst_origin == origin
            &&& most <= before.max_labels ==> after.worst_origin == before.worst_origin
            &&& after.max_uncapped >= before.max_uncapped && after.max_uncapped >= more
            &&& after.max_uncapped == before.max_uncapped || after.max_uncapped == more
            &&& after.cap_hits == before.cap_hits + capped.cap_hits
            &&& after.differing_pairs == before.differing_pairs + pairs
            &&& pairs > 0 ==> after.differing_origins == before.differing_origins + 1
            &&& pairs == 0 ==> after.differing_origins == before.differing_origins
            &&& after.worst_overcharge >= before.worst_overcharge
            &&& after.worst_overcharge == worst_over(
                capped.weights@,
                exact.weights@,
                capped.weights@.len(),
                before.worst_overcharge as nat,
            )
            &&& after.means@.len() == before.means@.len() + 1
            &&& after.means_uncapped@.len() == before.means_uncapped@.len() + 1
            &&& after.means@.last().labels == label_sum(
                capped.label_counts@,
                capped.label_counts@.len(),
            ) as u128
            &&& after.means@.last().stations == reached_count(
                capped.label_counts@,
                capped.label_counts@.len(),
            ) as usize
            &&& after.means_uncapped@.last().labels == label_sum(
                exact.label_counts@,
                exact.label_counts@.len(),
            ) as u128
            &&& after.means_uncapped@.last().stations == reached_count(
                exact.label_counts@,
                exact.label_counts@.len(),
            ) as usize
            &&& after.means@.drop_last() == before.means@
            &&& after.means_uncapped@.drop_last() == before.means_uncapped@
        }),
{
    law_the_worst_overcharge_is_the_largest(
        capped.weights@,
        exact.weights@,
        capped.weights@.len(),
        before.worst_overcharge as nat,
    );
}

/// A mean is over the stations that have a label: all labels, by how many such there
/// are.
pub proof fn law_means_leave_unreached_stations_out(counts: Seq<usize>, k: nat)
    requires
        k <= counts.len(),
    ensures
        reached_count(counts, k) == counts.take(k as int).filter(|n: usize| n > 0).len(),
        label_sum(counts, k) == counts.take(k as int).fold_left(
            0nat,
            |sum: nat, n: usize| sum + n as nat,
        ),
    decreases k,
{
    reveal(Seq::filter);
    if k > 0 {
        law_means_leave_unreached_stations_out(counts, (k - 1) as nat);
        assert(counts.take(k as int).drop_last() =~= counts.take(k - 1));
    }
}

/// A station that cannot be reached is dumped as -1, any other as its weight.
pub proof fn law_unreachable_is_dumped_as_minus_one(weight: Option<u32>)
    ensures
        weight is None ==> dumped(weight) == -1,
        weight is Some ==> dumped(weight) == weight->0,
{
}

/// What a search needs of a loaded model, besides a valid graph: a node for every
/// station, and an index entry for the zone of every node and for every zone that a
/// link passes through.
pub proof fn law_searchable_means_zones_are_known<C>(l: Loaded<C>)
    requires
        l.graph@.valid(),
        zone_numbers_valid(l.zones@),
    ensures
        searchable(l) <==> {
            let g = l.graph@;
            &&& l.stations@.len() <= g.zones.len()
            &&& forall|u: int| 0 <= u < g.zones.len() ==> #[trigger] g.zones[u] < l.zones@.len()
            &&& forall|u: int, i: int, b: int|
                #![trigger has_bit(g.links[u][i].1, b)]
                0 <= u < g.zones.len() && 0 <= i < g.links[u].len() && has_bit(g.links[u][i].1, b)
                    ==> b < l.zones@.len()
        },
{
    let g = l.graph@;
    if searchable(l) {
        assert forall|u: int, i: int, b: int|
            #![trigger has_bit(g.links[u][i].1, b)]
            0 <= u < g.zones.len() && 0 <= i < g.links[u].len() && has_bit(
                g.links[u][i].1,
                b,
            ) implies b < l.zones@.len() by {
            assert(indexed(l.zones@, bit_set(g.links[u][i].1)));
            assert(bit_set(g.links[u][i].1).contains(b));
        }
    }
    if forall|u: int, i: int, b: int|
        #![trigger has_bit(g.links[u][i].1, b)]
        0 <= u < g.zones.len() && 0 <= i < g.links[u].len() && has_bit(g.links[u][i].1, b) ==> b
            < l.zones@.len() {
        assert forall|u: int, i: int|
            #![trigger g.links[u][i]]
            0 <= u < g.size() && 0 <= i < g.links[u].len() implies indexed(
            l.zones@,
            bit_set(g.links[u][i].1),
        ) by {
            assert forall|b: int| #[trigger] bit_set(g.links[u][i].1).contains(b) implies 0 <= b
                < l.zones@.len() by {
                assert(has_bit(g.links[u][i].1, b));
            }
        }
    }
}

/// A fixture is skipped only where one of its two names means no station; the error is
/// that of the name.
pub proof fn law_skipped_means_an_unclear_name<C>(
    l: Loaded<C>,
    table: FareTable<u64>,
    f: Fixture,
    e: NameError,
)
    requires
        is_verdict(l, table, f, Ok::<Verdict, NoPrice>(Verdict::Skipped(e))),
    ensures
        is_found(l.stations@, f.from@, Err::<u32, NameError>(e)) || is_found(
            l.stations@,
            f.to@,
            Err::<u32, NameError>(e),
        ),
{
}

/// Any other verdict comes from a search between the two stations that the fixture
/// names, which keeps at most 64 labels per station.
pub proof fn law_a_verdict_follows_a_search<C>(
    l: Loaded<C>,
    table: FareTable<u64>,
    f: Fixture,
    r: Result<Verdict, NoPrice>,
) -> (found: (u32, u32, SearchResult))
    requires
        is_verdict(l, table, f, r),
        r matches Ok(v) ==> !(v is Skipped),
    ensures
        is_found(l.stations@, f.from@, Ok::<u32, NameError>(found.0)),
        is_found(l.stations@, f.to@, Ok::<u32, NameError>(found.1)),
        is_outcome(l.graph@, l.zones@, found.0 as int, 64, found.2),
        judges(l.zones@, table, f, found.2, found.1 as int, r),
{
    let from = choose|from: u32| #[trigger]
        is_found(l.stations@, f.from@, Ok::<u32, NameError>(from)) && exists|
            to: u32,
            result: SearchResult,
        |
            #![trigger judges(l.zones@, table, f, result, to as int, r)]
            {
                &&& is_found(l.stations@, f.to@, Ok::<u32, NameError>(to))
                &&& is_outcome(l.graph@, l.zones@, from as int, LABEL_CAP as nat, result)
                &&& judges(l.zones@, table, f, result, to as int, r)
            };
    let (to, result) = choose|to: u32, result: SearchResult|
        #![trigger judges(l.zones@, table, f, result, to as int, r)]
        {
            &&& is_found(l.stations@, f.to@, Ok::<u32, NameError>(to))
            &&& is_outcome(l.graph@, l.zones@, from as int, LABEL_CAP as nat, result)
            &&& judges(l.zones@, table, f, result, to as int, r)
        };
    (from, to, result)
}

/// A run that ends for want of a price ends at the first fixture whose weight the table
/// has no price for: that one is judged so, and every one before it has a verdict.
pub proof fn law_a_run_ends_at_the_first_unpriced<C>(
    l: Loaded<C>,
    table: FareTable<u64>,
    list: Seq<Fixture>,
    e: NoPrice,
) -> (verdicts: Seq<Verdict>)
    requires
        ends_unpriced(l, table, list, e),
    ensures
        verdicts.len() < list.len(),
        is_verdict(l, table, list[verdicts.len() as int], Err::<Verdict, NoPrice>(e)),
        forall|j: int|
            0 <= j < verdicts.len() ==> is_verdict(
                l,
                table,
                list[j],
                Ok::<Verdict, NoPrice>(#[trigger] verdicts[j]),
            ),
{
    let i = choose|i: int| #[trigger] first_unpriced(l, table, list, i, e);
    let verdicts = Seq::new(
        i as nat,
        |j: int| choose|v: Verdict| is_verdict(l, table, list[j], Ok::<Verdict, NoPrice>(v)),
    );
    assert forall|j: int| 0 <= j < verdicts.len() implies is_verdict(
        l,
        table,
        list[j],
        Ok::<Verdict, NoPrice>(#[trigger] verdicts[j]),
    ) by {
        assert(has_verdict(l, table, list[j]));
    }
    verdicts
}

/// How a growth report comes about: from nothing, one origin after the other, each
/// searched once under the cap and once without one.
pub proof fn law_a_report_takes_in_every_origin<C>(
    l: Loaded<C>,
    sample: nat,
    cap: nat,
    r: GrowthReport,
) -> (runs: (Seq<SearchResult>, Seq<SearchResult>, Seq<Growth>))
    requires
        is_report(l, sample, cap, r),
    ensures
        samples_nodes(l.graph@.size(), sample_step(l.graph@.size(), sample), r.origins@),
        runs.2.len() == r.origins@.len() + 1,
        runs.2[r.origins@.len() as int] == r.growth,
        ({
            let blank = runs.2[0];
            &&& blank.max_labels == 0 && blank.max_uncapped == 0 && blank.cap_hits == 0
            &&& blank.means@.len() == 0 && blank.means_uncapped@.len() == 0
            &&& blank.differing_origins == 0 && blank.differing_pairs == 0
            &&& blank.worst_overcharge == 0 && blank.worst_origin == 0
        }),
        forall|i: int|
            #![trigger r.origins@[i]]
            0 <= i < r.origins@.len() ==> {
                &&& is_outcome(l.graph@, l.zones@, r.origins@[i] as int, cap, runs.0[i])
                &&& is_outcome(
                    l.graph@,
                    l.zones@,
                    r.origins@[i] as int,
                    usize::MAX as nat,
                    runs.1[i],
                )
                &&& measured_with(
                    runs.2[i],
                    r.origins@[i],
                    runs.0[i],
                    runs.1[i],
                    runs.2[i + 1],
                )
            },
{
    let (capped, exact, steps) = choose|
        capped: Seq<SearchResult>,
        exact: Seq<SearchResult>,
        steps: Seq<Growth>,
    |
        #[trigger] measures(l, r.origins@, cap, capped, exact, steps) && steps.last() == r.growth;
    assert forall|i: int| #![trigger r.origins@[i]] 0 <= i < r.origins@.len() implies {
        &&& is_outcome(l.graph@, l.zones@, r.origins@[i] as int, cap, capped[i])
        &&& is_outcome(l.graph@, l.zones@, r.origins@[i] as int, usize::MAX as nat, exact[i])
        &&& measured_with(steps[i], r.origins@[i], capped[i], exact[i], steps[i + 1])
    } by {
        assert(is_run(l, r.origins@[i], cap, capped[i]));
    }
    (capped, exact, steps)
}

/// A dump has a row for every sampled station, with the weight from it to each station
/// as a search that keeps at most 64 labels finds it, and -1 where it finds none.
pub proof fn law_a_dump_row_is_a_search<C>(
    l: Loaded<C>,
    sample: nat,
    rows: Seq<(u32, Vec<i64>)>,
    i: int,
) -> (run: SearchResult)
    requires
        dumps(l, sample, rows),
        0 <= i < rows.len(),
    ensures
        samples_nodes(
            l.graph@.size(),
            sample_step(l.graph@.size(), sample),
            rows.map_values(|row: (u32, Vec<i64>)| row.0),
        ),
        is_outcome(l.graph@, l.zones@, rows[i].0 as int, 64, run),
        rows[i].1@.len() == run.weights@.len(),
        forall|v: int|
            0 <= v < run.weights@.len() ==> #[trigger] rows[i].1@[v] == match run.weights@[v] {
                Some(w) => w as int,
                None => -1,
            },
{
    assert(rows.map_values(|row: (u32, Vec<i64>)| row.0) =~= Seq::new(
        rows.len(),
        |j: int| rows[j].0,
    ));
    assert(is_dump(l, rows[i].0, rows[i].1@));
    choose|run: SearchResult|
        #[trigger] is_run(l, rows[i].0, LABEL_CAP as nat, run) && {
            &&& rows[i].1@.len() == run.weights@.len()
            &&& forall|v: int|
                0 <= v < rows[i].1@.len() ==> #[trigger] rows[i].1@[v] == dumped(run.weights@[v])
        }
}

/// A report holds a verdict for every fixture, says whether all are good, measures the
/// growth of labels, and has a dump exactly when one is asked for.
pub proof fn law_a_report_is_complete<C>(
    l: Loaded<C>,
    table: FareTable<u64>,
    list: Seq<Fixture>,
    sample: nat,
    cap: nat,
    dumping: bool,
    r: Report,
    i: int,
)
    requires
        reports_on(l, table, list, sample, cap, dumping, r),
        0 <= i < list.len(),
    ensures
        r.checked.verdicts@.len() == list.len(),
        is_verdict(l, table, list[i], Ok::<Verdict, NoPrice>(r.checked.verdicts@[i])),
        r.checked.all_good ==> r.checked.verdicts@[i] is Priced && r.checked.verdicts@[i]->good,
        !r.checked.all_good ==> exists|j: int|
            0 <= j < list.len() && !((#[trigger] r.checked.verdicts@[j]) is Priced
                && r.checked.verdicts@[j]->good),
        is_report(l, sample, cap, r.growth),
        r.dump is Some <==> dumping,
        dumping ==> dumps(l, sample, r.dump->0@),
{
    law_all_good_means_every_one(r.checked.verdicts@);
    assert(is_verdict(l, table, list[i], Ok::<Verdict, NoPrice>(r.checked.verdicts@[i])));
    if !r.checked.all_good {
        let j = choose|j: int|
            0 <= j < r.checked.verdicts@.len() && !((#[trigger] r.checked.verdicts@[j]) is Priced
                && r.checked.verdicts@[j]->good);
        assert(0 <= j < list.len());
    }
}

/// A model loads unless it names more than 64 different zones; then their number is told.
/// A loaded model has the stations as given and indexes exactly the zones named, in
/// increasing order.
pub proof fn law_a_model_loads_up_to_64_zones<C>(
    stations: Vec<Station<C>>,
    json: GraphJson,
    r: Result<Loaded<C>, TooManyZones>,
)
    requires
        is_load(stations, json, r),
    ensures
        r matches Err(e) ==> e.count > 64 && e.count == json.zone_numbers@.to_set().len(),
        r matches Ok(l) ==> {
            &&& l.stations == stations
            &&& l.zones@.len() <= 64
            &&& forall|i: int, j: int|
                #![trigger l.zones@[i], l.zones@[j]]
                0 <= i < j < l.zones@.len() ==> l.zones@[i] < l.zones@[j]
            &&& forall|number: u32| #[trigger]
                l.zones@.contains(number) <==> json.zone_numbers@.contains(number)
        },
        r is Ok <==> json.zone_numbers@.to_set().len() <= 64,
{
    if let Ok(l) = r {
        assert forall|number: u32| #[trigger] l.zones@.contains(number) <==> json.zone_numbers@.contains(
            number,
        ) by {
            assert(l.zones@.to_set().contains(number) <==> l.zones@.contains(number));
            assert(json.zone_numbers@.to_set().contains(number) <==> json.zone_numbers@.contains(
                number,
            ));
        }
        assert(l.zones@.no_duplicates());
        l.zones@.unique_seq_to_set();
    }
}

} // verus!
