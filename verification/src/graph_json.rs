//! The graph as it is written to `graph.json` and read back.

use crate::bits::{bit_set, has_bit, lemma_bit_or, lemma_bit_single, lemma_masks_equal};
use crate::graph::{
    covered_mask, edges_in_range, joins, lemma_link_present, lemma_link_source,
    lemma_merged_valid, lemma_model_links, link_source, link_total, links_of, merged_edges,
    model_of, ordered_pair, Graph, GraphModel,
};
use crate::seqs::nested;
use crate::zoneset::{lemma_double_zones, weight_for_zone, zone_weight, ZoneIndex};
use vstd::prelude::*;

verus! {

/// Serialised form of a graph.
///
/// Edge masks are split into two 32-bit halves because JavaScript's bitwise
/// operators coerce to int32: a 45-bit mask survives a JSON round trip as a
/// float, but `|` on it would silently truncate.
#[derive(Debug)]
pub struct GraphJson {
    /// `adjacency[i]` lists neighbours of station `i` as station indices.
    pub adjacency: Vec<Vec<u32>>,
    /// Low 32 bits of each edge's traversed-zone mask, parallel to `adjacency`.
    pub edge_mask_lo: Vec<Vec<u32>>,
    /// High 32 bits of each edge's traversed-zone mask, parallel to `adjacency`.
    pub edge_mask_hi: Vec<Vec<u32>>,
    /// Zone bit-index per station, parallel to `stations.json`.
    pub zone_bits: Vec<u8>,
    /// Zone numbers ordered by bit index; bit `i` means `zone_numbers[i]`.
    pub zone_numbers: Vec<u32>,
    /// Tariff weight per bit index (2 for zones 110 and 120, else 1).
    pub zone_weights: Vec<u32>,
}

/// The low 32 bits of a mask.
pub open spec fn low_half(mask: u64) -> u32 {
    (mask % 0x1_0000_0000) as u32
}

/// The high 32 bits of a mask.
pub open spec fn high_half(mask: u64) -> u32 {
    (mask / 0x1_0000_0000) as u32
}

/// The mask that two halves make up.
pub open spec fn whole_mask(lo: u32, hi: u32) -> u64 {
    (lo + hi * 0x1_0000_0000) as u64
}

/// Splitting a mask into halves loses nothing.
pub proof fn law_halves_make_whole(mask: u64)
    ensures
        whole_mask(low_half(mask), high_half(mask)) == mask,
{
}

/// Whether `json` is what is written of a graph.
pub open spec fn describes(json: GraphJson, g: GraphModel, numbers: Seq<u32>) -> bool {
    &&& nested(json.adjacency@) == Seq::new(
        g.size(),
        |u: int| Seq::new(g.links[u].len(), |i: int| g.links[u][i].0),
    )
    &&& nested(json.edge_mask_lo@) == Seq::new(
        g.size(),
        |u: int| Seq::new(g.links[u].len(), |i: int| low_half(g.links[u][i].1)),
    )
    &&& nested(json.edge_mask_hi@) == Seq::new(
        g.size(),
        |u: int| Seq::new(g.links[u].len(), |i: int| high_half(g.links[u][i].1)),
    )
    &&& json.zone_bits@ == g.zones
    &&& json.zone_numbers@ == numbers
    &&& json.zone_weights@.len() == numbers.len()
    &&& forall|i: int|
        0 <= i < numbers.len() ==> #[trigger] json.zone_weights@[i] == zone_weight(numbers[i])
}

/// The edges stored in the first `k` places of row `u`. Every edge is stored at
/// both its ends, so only the end with the smaller index counts.
pub open spec fn stored_row(json: GraphJson, u: int, k: nat) -> Seq<(u32, u32, u64)>
    decreases k,
{
    if k == 0 {
        Seq::empty()
    } else {
        let rest = stored_row(json, u, (k - 1) as nat);
        let v = json.adjacency@[u]@[k - 1];
        if u < v {
            rest.push(
                (
                    u as u32,
                    v,
                    whole_mask(json.edge_mask_lo@[u]@[k - 1], json.edge_mask_hi@[u]@[k - 1]),
                ),
            )
        } else {
            rest
        }
    }
}

/// The edges stored in the first `u` rows.
pub open spec fn stored_edges(json: GraphJson, u: nat) -> Seq<(u32, u32, u64)>
    decreases u,
{
    if u == 0 {
        Seq::empty()
    } else {
        stored_edges(json, (u - 1) as nat) + stored_row(
            json,
            u - 1,
            json.adjacency@[u - 1]@.len(),
        )
    }
}

/// The graph that is read back.
pub open spec fn read_model(json: GraphJson) -> GraphModel {
    let edges = stored_edges(json, json.adjacency@.len());
    model_of(json.zone_bits@, merged_edges(json.zone_bits@, edges))
}

/// Whether every stored edge has both halves of its mask and names stations
/// whose zones fit a 64-bit set, and the graph is small enough for its indices.
pub open spec fn loadable(json: GraphJson) -> bool {
    &&& json.adjacency@.len() <= u32::MAX
    &&& json.zone_bits@.len() <= u32::MAX
    &&& 2 * stored_edges(json, json.adjacency@.len()).len() <= u32::MAX
    &&& forall|u: int, i: int|
        #![trigger json.adjacency@[u]@[i]]
        0 <= u < json.adjacency@.len() && 0 <= i < json.adjacency@[u]@.len() && u
            < json.adjacency@[u]@[i] ==> stored_soundly(json, u, i)
}

/// Whether entry `i` of row `u` can be read.
pub open spec fn stored_soundly(json: GraphJson, u: int, i: int) -> bool {
    let v = json.adjacency@[u]@[i];
    &&& u < json.edge_mask_lo@.len() && i < json.edge_mask_lo@[u]@.len()
    &&& u < json.edge_mask_hi@.len() && i < json.edge_mask_hi@[u]@.len()
    &&& v < json.zone_bits@.len()
    &&& json.zone_bits@[u] < 64
    &&& json.zone_bits@[v as int] < 64
}

impl GraphJson {
    pub fn from_graph(graph: &Graph, zones: &ZoneIndex) -> (r: GraphJson)
        ensures
            describes(r, graph@, zones@),
            loadable(r),
    {
        let n: usize = graph.node_count();
        let ghost g = graph@;
        let mut adjacency: Vec<Vec<u32>> = Vec::new();
        let mut edge_mask_lo: Vec<Vec<u32>> = Vec::new();
        let mut edge_mask_hi: Vec<Vec<u32>> = Vec::new();
        let mut zone_bits: Vec<u8> = Vec::new();
        let mut u: usize = 0;
        while u < n
            invariant
                g == graph@,
                n == g.size(),
                n <= u32::MAX,
                u <= n,
                adjacency@.len() == u,
                edge_mask_lo@.len() == u,
                edge_mask_hi@.len() == u,
                zone_bits@ == g.zones.take(u as int),
                forall|x: int|
                    0 <= x < u ==> (#[trigger] adjacency@[x])@ == Seq::new(
                        g.links[x].len(),
                        |i: int| g.links[x][i].0,
                    ),
                forall|x: int|
                    0 <= x < u ==> (#[trigger] edge_mask_lo@[x])@ == Seq::new(
                        g.links[x].len(),
                        |i: int| low_half(g.links[x][i].1),
                    ),
                forall|x: int|
                    0 <= x < u ==> (#[trigger] edge_mask_hi@[x])@ == Seq::new(
                        g.links[x].len(),
                        |i: int| high_half(g.links[x][i].1),
                    ),
            decreases n - u,
        {
            let links = graph.edges_from(u as u32);
            let mut targets: Vec<u32> = Vec::new();
            let mut lo: Vec<u32> = Vec::new();
            let mut hi: Vec<u32> = Vec::new();
            let mut i: usize = 0;
            while i < links.len()
                invariant
                    i <= links@.len(),
                    targets@ == Seq::new(i as nat, |k: int| links@[k].0),
                    lo@ == Seq::new(i as nat, |k: int| low_half(links@[k].1)),
                    hi@ == Seq::new(i as nat, |k: int| high_half(links@[k].1)),
                decreases links@.len() - i,
            {
                let (v, mask) = links[i];
                targets.push(v);
                lo.push((mask % 0x1_0000_0000) as u32);
                hi.push((mask / 0x1_0000_0000) as u32);
                i = i + 1;
                assert(targets@ =~= Seq::new(i as nat, |k: int| links@[k].0));
                assert(lo@ =~= Seq::new(i as nat, |k: int| low_half(links@[k].1)));
                assert(hi@ =~= Seq::new(i as nat, |k: int| high_half(links@[k].1)));
            }
            zone_bits.push(graph.zone_of(u as u32));
            assert(zone_bits@ =~= g.zones.take(u + 1));
            adjacency.push(targets);
            edge_mask_lo.push(lo);
            edge_mask_hi.push(hi);
            u = u + 1;
        }
        let numbers = zones.numbers();
        let mut zone_numbers: Vec<u32> = Vec::new();
        let mut zone_weights: Vec<u32> = Vec::new();
        let mut k: usize = 0;
        while k < numbers.len()
            invariant
                k <= numbers@.len(),
                zone_numbers@ == numbers@.take(k as int),
                zone_weights@.len() == k,
                forall|i: int|
                    0 <= i < k ==> #[trigger] zone_weights@[i] == zone_weight(numbers@[i]),
            decreases numbers@.len() - k,
        {
            zone_numbers.push(numbers[k]);
            assert(zone_numbers@ =~= numbers@.take(k + 1));
            zone_weights.push(weight_for_zone(numbers[k]));
            k = k + 1;
        }
        assert(zone_numbers@ =~= zones@);
        assert(zone_bits@ =~= g.zones);
        let r = GraphJson {
            adjacency,
            edge_mask_lo,
            edge_mask_hi,
            zone_bits,
            zone_numbers,
            zone_weights,
        };
        proof {
            assert(nested(r.adjacency@) =~= Seq::new(
                g.size(),
                |u: int| Seq::new(g.links[u].len(), |i: int| g.links[u][i].0),
            ));
            assert(nested(r.edge_mask_lo@) =~= Seq::new(
                g.size(),
                |u: int| Seq::new(g.links[u].len(), |i: int| low_half(g.links[u][i].1)),
            ));
            assert(nested(r.edge_mask_hi@) =~= Seq::new(
                g.size(),
                |u: int| Seq::new(g.links[u].len(), |i: int| high_half(g.links[u][i].1)),
            ));
            law_written_graphs_load(r, g, zones@);
        }
        r
    }

    /// Whether the stored edges can be read.
    pub fn is_loadable(&self) -> (r: bool)
        ensures
            r == loadable(*self),
    {
        if self.adjacency.len() > u32::MAX as usize || self.zone_bits.len() > u32::MAX as usize {
            return false;
        }
        let mut total: u64 = 0;
        let mut u: usize = 0;
        while u < self.adjacency.len()
            invariant
                u <= self.adjacency@.len() <= u32::MAX,
                self.zone_bits@.len() <= u32::MAX,
                total == stored_edges(*self, u as nat).len(),
                2 * total <= u32::MAX,
                forall|x: int, i: int|
                    #![trigger self.adjacency@[x]@[i]]
                    0 <= x < u && 0 <= i < self.adjacency@[x]@.len() && x < self.adjacency@[x]@[i]
                        ==> stored_soundly(*self, x, i),
            decreases self.adjacency@.len() - u,
        {
            let mut i: usize = 0;
            let ghost base = total;
            while i < self.adjacency[u].len()
                invariant
                    u < self.adjacency@.len() <= u32::MAX,
                    self.zone_bits@.len() <= u32::MAX,
                    i <= self.adjacency@[u as int]@.len(),
                    base == stored_edges(*self, u as nat).len(),
                    total == base + stored_row(*self, u as int, i as nat).len(),
                    2 * total <= u32::MAX,
                    forall|k: int|
                        #![trigger self.adjacency@[u as int]@[k]]
                        0 <= k < i && u < self.adjacency@[u as int]@[k] ==> stored_soundly(
                            *self,
                            u as int,
                            k,
                        ),
                decreases self.adjacency@[u as int]@.len() - i,
            {
                let v: u32 = self.adjacency[u][i];
                if u < v as usize {
                    let sound = u < self.edge_mask_lo.len() && i < self.edge_mask_lo[u].len() && u
                        < self.edge_mask_hi.len() && i < self.edge_mask_hi[u].len() && (v as usize)
                        < self.zone_bits.len() && self.zone_bits[u] < 64
                        && self.zone_bits[v as usize] < 64;
                    if !sound {
                        assert(!stored_soundly(*self, u as int, i as int));
                        assert(self.adjacency@[u as int]@[i as int] == v);
                        return false;
                    }
                    total = total + 1;
                    if 2 * total > u32::MAX as u64 {
                        proof {
                            lemma_stored_grows(*self, u as nat, (i + 1) as nat);
                        }
                        return false;
                    }
                }
                i = i + 1;
            }
            u = u + 1;
        }
        true
    }

    /// Reads the graph back.
    pub fn to_graph(&self) -> (r: Graph)
        requires
            loadable(*self),
        ensures
            r@ == read_model(*self),
            r@.valid(),
    {
        let mut edges: Vec<(u32, u32, u64)> = Vec::new();
        let mut u: usize = 0;
        while u < self.adjacency.len()
            invariant
                loadable(*self),
                u <= self.adjacency@.len(),
                edges@ == stored_edges(*self, u as nat),
            decreases self.adjacency@.len() - u,
        {
            let ghost base = edges@;
            let mut i: usize = 0;
            assert(edges@ =~= base + stored_row(*self, u as int, 0));
            while i < self.adjacency[u].len()
                invariant
                    loadable(*self),
                    u < self.adjacency@.len(),
                    i <= self.adjacency@[u as int]@.len(),
                    edges@ == base + stored_row(*self, u as int, i as nat),
                decreases self.adjacency@[u as int]@.len() - i,
            {
                let v: u32 = self.adjacency[u][i];
                if (u as u32) < v {
                    assert(self.adjacency@[u as int]@[i as int] == v);
                    assert(stored_soundly(*self, u as int, i as int));
                    let lo: u64 = self.edge_mask_lo[u][i] as u64;
                    let hi: u64 = self.edge_mask_hi[u][i] as u64;
                    edges.push((u as u32, v, lo + hi * 0x1_0000_0000));
                    assert(edges@ =~= base + stored_row(*self, u as int, (i + 1) as nat));
                }
                i = i + 1;
            }
            u = u + 1;
        }
        let mut bits: Vec<u8> = Vec::new();
        let mut k: usize = 0;
        while k < self.zone_bits.len()
            invariant
                k <= self.zone_bits@.len(),
                bits@ == self.zone_bits@.take(k as int),
            decreases self.zone_bits@.len() - k,
        {
            bits.push(self.zone_bits[k]);
            assert(bits@ =~= self.zone_bits@.take(k + 1));
            k = k + 1;
        }
        assert(bits@ =~= self.zone_bits@);
        proof {
            assert forall|e: int|
                0 <= e < edges@.len() && #[trigger] edges@[e].0 != edges@[e].1 implies ({
                &&& edges@[e].0 < bits@.len()
                &&& edges@[e].1 < bits@.len()
                &&& bits@[edges@[e].0 as int] < 64
                &&& bits@[edges@[e].1 as int] < 64
            }) by {
                let (x, i) = lemma_stored_from(*self, self.adjacency@.len(), e);
                assert(stored_soundly(*self, x, i));
            }
            lemma_merged_valid(bits@, edges@);
        }
        Graph::from_edges(bits, edges.as_slice())
    }
}

/// Where entry `i` of row `u` stands as an edge.
spec fn stored_as(json: GraphJson, u: int, i: int, edge: (u32, u32, u64)) -> bool {
    &&& 0 <= i < json.adjacency@[u]@.len()
    &&& u < json.adjacency@[u]@[i]
    &&& edge == (
        u as u32,
        json.adjacency@[u]@[i],
        whole_mask(json.edge_mask_lo@[u]@[i], json.edge_mask_hi@[u]@[i]),
    )
}

proof fn lemma_row_from(json: GraphJson, u: int, k: nat, e: int) -> (i: int)
    requires
        k <= json.adjacency@[u]@.len(),
        0 <= e < stored_row(json, u, k).len(),
    ensures
        stored_as(json, u, i, stored_row(json, u, k)[e]),
        i < k,
    decreases k,
{
    let rest = stored_row(json, u, (k - 1) as nat);
    if e < rest.len() {
        lemma_row_from(json, u, (k - 1) as nat, e)
    } else {
        k - 1
    }
}

proof fn lemma_stored_from(json: GraphJson, u: nat, e: int) -> (r: (int, int))
    requires
        u <= json.adjacency@.len(),
        0 <= e < stored_edges(json, u).len(),
    ensures
        0 <= r.0 < u,
        stored_as(json, r.0, r.1, stored_edges(json, u)[e]),
    decreases u,
{
    let rest = stored_edges(json, (u - 1) as nat);
    if e < rest.len() {
        lemma_stored_from(json, (u - 1) as nat, e)
    } else {
        let i = lemma_row_from(json, u - 1, json.adjacency@[u - 1]@.len(), e - rest.len());
        (u - 1, i)
    }
}

proof fn lemma_row_grows(json: GraphJson, u: int, k: nat, m: nat)
    requires
        k <= m,
    ensures
        stored_row(json, u, k).len() <= stored_row(json, u, m).len(),
    decreases m,
{
    if k < m {
        lemma_row_grows(json, u, k, (m - 1) as nat);
    }
}

proof fn lemma_edges_grow(json: GraphJson, u: nat, w: nat)
    requires
        u <= w,
    ensures
        stored_edges(json, u).len() <= stored_edges(json, w).len(),
    decreases w,
{
    if u < w {
        lemma_edges_grow(json, u, (w - 1) as nat);
    }
}

proof fn lemma_stored_grows(json: GraphJson, u: nat, k: nat)
    requires
        u < json.adjacency@.len(),
        k <= json.adjacency@[u as int]@.len(),
    ensures
        stored_edges(json, u).len() + stored_row(json, u as int, k).len() <= stored_edges(
            json,
            json.adjacency@.len(),
        ).len(),
{
    lemma_row_grows(json, u as int, k, json.adjacency@[u as int]@.len());
    assert(stored_edges(json, u + 1) == stored_edges(json, u) + stored_row(
        json,
        u as int,
        json.adjacency@[u as int]@.len(),
    ));
    lemma_edges_grow(json, u + 1, json.adjacency@.len());
}

proof fn lemma_row_contains(json: GraphJson, u: int, k: nat, i: int)
    requires
        0 <= i < k <= json.adjacency@[u]@.len(),
        u < json.adjacency@[u]@[i],
    ensures
        stored_row(json, u, k).contains(
            (
                u as u32,
                json.adjacency@[u]@[i],
                whole_mask(json.edge_mask_lo@[u]@[i], json.edge_mask_hi@[u]@[i]),
            ),
        ),
    decreases k,
{
    let rest = stored_row(json, u, (k - 1) as nat);
    let all = stored_row(json, u, k);
    let edge = (
        u as u32,
        json.adjacency@[u]@[i],
        whole_mask(json.edge_mask_lo@[u]@[i], json.edge_mask_hi@[u]@[i]),
    );
    if i == k - 1 {
        assert(all[rest.len() as int] == edge);
    } else {
        lemma_row_contains(json, u, (k - 1) as nat, i);
        let e = choose|e: int| 0 <= e < rest.len() && rest[e] == edge;
        assert(all[e] == edge);
    }
}

proof fn lemma_stored_contains(json: GraphJson, w: nat, u: int, i: int)
    requires
        0 <= u < w <= json.adjacency@.len(),
        0 <= i < json.adjacency@[u]@.len(),
        u < json.adjacency@[u]@[i],
    ensures
        stored_edges(json, w).contains(
            (
                u as u32,
                json.adjacency@[u]@[i],
                whole_mask(json.edge_mask_lo@[u]@[i], json.edge_mask_hi@[u]@[i]),
            ),
        ),
    decreases w,
{
    let rest = stored_edges(json, (w - 1) as nat);
    let row = stored_row(json, w - 1, json.adjacency@[w - 1]@.len());
    let all = stored_edges(json, w);
    let edge = (
        u as u32,
        json.adjacency@[u]@[i],
        whole_mask(json.edge_mask_lo@[u]@[i], json.edge_mask_hi@[u]@[i]),
    );
    if u == w - 1 {
        lemma_row_contains(json, u, json.adjacency@[u]@.len(), i);
        let e = choose|e: int| 0 <= e < row.len() && row[e] == edge;
        assert(all[rest.len() + e] == edge);
    } else {
        lemma_stored_contains(json, (w - 1) as nat, u, i);
        let e = choose|e: int| 0 <= e < rest.len() && rest[e] == edge;
        assert(all[e] == edge);
    }
}

/// What the entries of a described graph are.
proof fn lemma_described_entry(json: GraphJson, g: GraphModel, numbers: Seq<u32>, u: int, i: int)
    requires
        describes(json, g, numbers),
        0 <= u < g.size(),
    ensures
        json.adjacency@.len() == g.size(),
        json.adjacency@[u]@.len() == g.links[u].len(),
        0 <= i < g.links[u].len() ==> {
            &&& json.adjacency@[u]@[i] == g.links[u][i].0
            &&& json.edge_mask_lo@[u]@.len() == g.links[u].len()
            &&& json.edge_mask_hi@[u]@.len() == g.links[u].len()
            &&& whole_mask(json.edge_mask_lo@[u]@[i], json.edge_mask_hi@[u]@[i]) == g.links[u][i].1
        },
{
    assert(nested(json.adjacency@).len() == g.size());
    assert(nested(json.adjacency@)[u] == json.adjacency@[u]@);
    assert(nested(json.edge_mask_lo@).len() == g.size());
    assert(nested(json.edge_mask_hi@).len() == g.size());
    assert(nested(json.edge_mask_lo@)[u] == json.edge_mask_lo@[u]@);
    assert(nested(json.edge_mask_hi@)[u] == json.edge_mask_hi@[u]@);
    if 0 <= i < g.links[u].len() {
        law_halves_make_whole(g.links[u][i].1);
    }
}

/// The stored edges of a described graph name each pair once.
proof fn lemma_row_pairs(
    json: GraphJson,
    g: GraphModel,
    numbers: Seq<u32>,
    u: int,
    k: nat,
    a: int,
    b: int,
)
    requires
        describes(json, g, numbers),
        g.valid(),
        0 <= u < g.size(),
        k <= g.links[u].len(),
        0 <= a < b < stored_row(json, u, k).len(),
    ensures
        stored_row(json, u, k)[a].1 != stored_row(json, u, k)[b].1,
    decreases k,
{
    lemma_described_entry(json, g, numbers, u, k - 1);
    let rest = stored_row(json, u, (k - 1) as nat);
    if b < rest.len() {
        lemma_row_pairs(json, g, numbers, u, (k - 1) as nat, a, b);
    } else {
        let i = lemma_row_from(json, u, (k - 1) as nat, a);
        lemma_described_entry(json, g, numbers, u, i);
        assert(g.links[u][i].0 != g.links[u][k - 1].0);
    }
}

proof fn lemma_stored_pairs(
    json: GraphJson,
    g: GraphModel,
    numbers: Seq<u32>,
    w: nat,
    a: int,
    b: int,
)
    requires
        describes(json, g, numbers),
        g.valid(),
        g.size() <= u32::MAX,
        w <= g.size(),
        0 <= a < b < stored_edges(json, w).len(),
    ensures
        stored_edges(json, w)[a].0 != stored_edges(json, w)[b].0 || stored_edges(json, w)[a].1
            != stored_edges(json, w)[b].1,
    decreases w,
{
    lemma_described_entry(json, g, numbers, w - 1, 0);
    let rest = stored_edges(json, (w - 1) as nat);
    let row = stored_row(json, w - 1, json.adjacency@[w - 1]@.len());
    if b < rest.len() {
        lemma_stored_pairs(json, g, numbers, (w - 1) as nat, a, b);
    } else if a >= rest.len() {
        lemma_row_pairs(
            json,
            g,
            numbers,
            w - 1,
            g.links[w - 1].len(),
            a - rest.len(),
            b - rest.len(),
        );
    } else {
        let (x, i) = lemma_stored_from(json, (w - 1) as nat, a);
        let j = lemma_row_from(json, w - 1, json.adjacency@[w - 1]@.len(), b - rest.len());
        assert(x < w - 1);
    }
}

/// An edge list that is merged already stays as it is.
proof fn lemma_merged_unchanged(zones: Seq<u8>, edges: Seq<(u32, u32, u64)>)
    requires
        forall|e: int|
            #![trigger edges[e]]
            0 <= e < edges.len() ==> {
                &&& edges[e].0 < edges[e].1
                &&& zones[edges[e].0 as int] < 64
                &&& zones[edges[e].1 as int] < 64
                &&& has_bit(edges[e].2, zones[edges[e].0 as int] as int)
                &&& has_bit(edges[e].2, zones[edges[e].1 as int] as int)
            },
        forall|a: int, b: int|
            #![trigger edges[a], edges[b]]
            0 <= a < b < edges.len() ==> edges[a].0 != edges[b].0 || edges[a].1 != edges[b].1,
    ensures
        merged_edges(zones, edges) == edges,
    decreases edges.len(),
{
    if edges.len() > 0 {
        let front = edges.drop_last();
        assert forall|e: int| #![trigger front[e]] 0 <= e < front.len() implies {
            &&& front[e].0 < front[e].1
            &&& zones[front[e].0 as int] < 64
            &&& zones[front[e].1 as int] < 64
            &&& has_bit(front[e].2, zones[front[e].0 as int] as int)
            &&& has_bit(front[e].2, zones[front[e].1 as int] as int)
        } by {
            assert(edges[e] == front[e]);
        }
        assert forall|a: int, b: int|
            #![trigger front[a], front[b]]
            0 <= a < b < front.len() implies front[a].0 != front[b].0 || front[a].1 != front[b].1 by {
            assert(edges[a] == front[a] && edges[b] == front[b]);
        }
        lemma_merged_unchanged(zones, front);
        let edge = edges[edges.len() - 1];
        let pair = ordered_pair(edge.0, edge.1);
        if exists|i: int| joins(front, i, pair) {
            let i = choose|i: int| joins(front, i, pair);
            assert(edges[i] == front[i]);
            assert(false);
        }
        let za = zones[edge.0 as int];
        let zb = zones[edge.1 as int];
        lemma_bit_single(za);
        lemma_bit_single(zb);
        lemma_bit_or(edge.2, 1u64 << za);
        lemma_bit_or(edge.2 | (1u64 << za), 1u64 << zb);
        assert(bit_set(covered_mask(zones, edge)) =~= bit_set(edge.2));
        lemma_masks_equal(covered_mask(zones, edge), edge.2);
        assert(front.push(edge) =~= edges);
    }
}

/// The stored edges of a described graph are in range and merged already.
proof fn lemma_stored_merged(json: GraphJson, g: GraphModel, numbers: Seq<u32>)
    requires
        g.valid(),
        g.size() <= u32::MAX,
        describes(json, g, numbers),
    ensures
        edges_in_range(g.zones, stored_edges(json, json.adjacency@.len())),
        merged_edges(g.zones, stored_edges(json, json.adjacency@.len())) == stored_edges(
            json,
            json.adjacency@.len(),
        ),
{
    let w = json.adjacency@.len();
    let edges = stored_edges(json, w);
    assert(nested(json.adjacency@).len() == g.size());
    assert forall|e: int| #![trigger edges[e]] 0 <= e < edges.len() implies {
        &&& edges[e].0 < edges[e].1 < g.size()
        &&& g.zones[edges[e].0 as int] < 64
        &&& g.zones[edges[e].1 as int] < 64
        &&& has_bit(edges[e].2, g.zones[edges[e].0 as int] as int)
        &&& has_bit(edges[e].2, g.zones[edges[e].1 as int] as int)
    } by {
        let (u, i) = lemma_stored_from(json, w, e);
        lemma_described_entry(json, g, numbers, u, i);
        assert(g.links[u][i].0 == edges[e].1);
    }
    assert forall|a: int, b: int|
        #![trigger edges[a], edges[b]]
        0 <= a < b < edges.len() implies edges[a].0 != edges[b].0 || edges[a].1 != edges[b].1 by {
        lemma_stored_pairs(json, g, numbers, w, a, b);
    }
    lemma_merged_unchanged(g.zones, edges);
    assert forall|k: int| 0 <= k < edges.len() && #[trigger] edges[k].0 != edges[k].1 implies {
        &&& edges[k].0 < g.zones.len()
        &&& edges[k].1 < g.zones.len()
        &&& g.zones[edges[k].0 as int] < 64
        &&& g.zones[edges[k].1 as int] < 64
    } by {}
}

/// Two lists of links without a repeated neighbour that hold the same links are
/// equally long.
proof fn lemma_same_links(a: Seq<(u32, u64)>, b: Seq<(u32, u64)>)
    requires
        forall|i: int, j: int| #![trigger a[i], a[j]] 0 <= i < j < a.len() ==> a[i].0 != a[j].0,
        forall|i: int, j: int| #![trigger b[i], b[j]] 0 <= i < j < b.len() ==> b[i].0 != b[j].0,
        forall|link: (u32, u64)| #[trigger] a.contains(link) <==> b.contains(link),
    ensures
        a.len() == b.len(),
{
    assert(a.no_duplicates());
    assert(b.no_duplicates());
    a.unique_seq_to_set();
    b.unique_seq_to_set();
    assert(a.to_set() =~= b.to_set()) by {
        assert forall|link: (u32, u64)| a.to_set().contains(link) <==> b.to_set().contains(
            link,
        ) by {
            assert(a.contains(link) <==> b.contains(link));
        }
    }
}

/// Lists of lists that are equally long row by row have as many links.
proof fn lemma_same_total(a: Seq<Seq<(u32, u64)>>, b: Seq<Seq<(u32, u64)>>, k: nat)
    requires
        forall|u: int| 0 <= u < k ==> (#[trigger] a[u]).len() == b[u].len(),
    ensures
        link_total(a, k) == link_total(b, k),
    decreases k,
{
    if k > 0 {
        lemma_same_total(a, b, (k - 1) as nat);
        assert(a[k - 1].len() == b[k - 1].len());
    }
}

/// Writing a graph and reading it back gives the same stations, in the same
/// zones, joined by the same links over the same zones, none more and none twice.
pub proof fn law_graph_survives_round_trip(json: GraphJson, g: GraphModel, numbers: Seq<u32>)
    requires
        g.valid(),
        g.size() <= u32::MAX,
        describes(json, g, numbers),
    ensures
        read_model(json).zones == g.zones,
        read_model(json).size() == g.size(),
        forall|u: int, link: (u32, u64)|
            0 <= u < g.size() ==> (#[trigger] read_model(json).links[u].contains(link)
                <==> g.links[u].contains(link)),
        forall|u: int|
            0 <= u < g.size() ==> (#[trigger] read_model(json).links[u]).len() == g.links[u].len(),
        read_model(json).edge_total() == g.edge_total(),
{
    let w = json.adjacency@.len();
    let edges = stored_edges(json, w);
    assert(nested(json.adjacency@).len() == g.size());
    lemma_stored_merged(json, g, numbers);
    lemma_merged_valid(g.zones, edges);
    lemma_model_links(g.zones, edges);
    let back = read_model(json);
    assert forall|u: int, link: (u32, u64)| 0 <= u < g.size() implies (
    #[trigger] back.links[u].contains(link) <==> g.links[u].contains(link)) by {
        assert(back.links[u] == links_of(edges, u));
        if links_of(edges, u).contains(link) {
            let i = choose|i: int| 0 <= i < links_of(edges, u).len() && links_of(edges, u)[i] == link;
            let k = lemma_link_source(edges, u, i);
            assert(link_source(edges, u, link, k));
            let (x, m) = lemma_stored_from(json, w, k);
            lemma_described_entry(json, g, numbers, x, m);
            let stored = g.links[x][m];
            assert(edges[k] == (x as u32, stored.0, stored.1));
            if x == u {
                assert(g.links[u][m] == link);
            } else {
                assert(g.links[stored.0 as int].contains((x as u32, stored.1)));
            }
        }
        if g.links[u].contains(link) {
            let i = choose|i: int| 0 <= i < g.links[u].len() && g.links[u][i] == link;
            lemma_described_entry(json, g, numbers, u, i);
            let v = link.0 as int;
            if u < v {
                lemma_stored_contains(json, w, u, i);
                let edge = (u as u32, link.0, link.1);
                let k = choose|k: int| 0 <= k < edges.len() && edges[k] == edge;
                lemma_link_present(edges, u, k);
            } else {
                assert(g.links[u][i].0 != u);
                let mirror = (u as u32, link.1);
                assert(g.links[v].contains(mirror));
                let m = choose|m: int| 0 <= m < g.links[v].len() && g.links[v][m] == mirror;
                lemma_described_entry(json, g, numbers, v, m);
                lemma_stored_contains(json, w, v, m);
                let edge = (v as u32, u as u32, link.1);
                let k = choose|k: int| 0 <= k < edges.len() && edges[k] == edge;
                lemma_link_present(edges, u, k);
            }
        }
    }
    assert forall|u: int| 0 <= u < g.size() implies (#[trigger] back.links[u]).len()
        == g.links[u].len() by {
        let a = back.links[u];
        let b = g.links[u];
        assert forall|link: (u32, u64)| #[trigger] a.contains(link) <==> b.contains(link) by {
            assert(back.links[u].contains(link) <==> g.links[u].contains(link));
        }
        assert forall|i: int, j: int|
            #![trigger a[i], a[j]]
            0 <= i < j < a.len() implies a[i].0 != a[j].0 by {
            assert(back.links[u][i].0 != back.links[u][j].0);
        }
        assert forall|i: int, j: int|
            #![trigger b[i], b[j]]
            0 <= i < j < b.len() implies b[i].0 != b[j].0 by {
            assert(g.links[u][i].0 != g.links[u][j].0);
        }
        lemma_same_links(a, b);
    }
    lemma_same_total(back.links, g.links, g.size());
}

/// What is written of a graph can be read: the graph's links are numbered in 32
/// bits, and so are those that are read back.
pub proof fn law_written_graphs_load(json: GraphJson, g: GraphModel, numbers: Seq<u32>)
    requires
        g.valid(),
        g.size() <= u32::MAX,
        link_total(g.links, g.size()) <= u32::MAX,
        describes(json, g, numbers),
    ensures
        loadable(json),
{
    let w = json.adjacency@.len();
    let edges = stored_edges(json, w);
    assert(nested(json.adjacency@).len() == g.size());
    lemma_stored_merged(json, g, numbers);
    lemma_merged_valid(g.zones, edges);
    lemma_model_links(g.zones, edges);
    law_graph_survives_round_trip(json, g, numbers);
    lemma_same_total(read_model(json).links, g.links, g.size());
    assert forall|u: int, i: int|
        #![trigger json.adjacency@[u]@[i]]
        0 <= u < w && 0 <= i < json.adjacency@[u]@.len() && u
            < json.adjacency@[u]@[i] implies stored_soundly(json, u, i) by {
        lemma_described_entry(json, g, numbers, u, i);
        assert(nested(json.edge_mask_lo@).len() == g.size());
        assert(nested(json.edge_mask_hi@).len() == g.size());
        assert(g.links[u][i].0 < g.size());
    }
}

/// The low half of a mask holds zones 0 to 31 and the high half zones 32 to 63.
pub proof fn law_the_low_half_comes_first(mask: u64)
    ensures
        mask == low_half(mask) + 0x1_0000_0000 * high_half(mask),
        low_half(mask) == mask % 0x1_0000_0000,
{
}

/// What is written of a graph: per station its neighbours, in their order, with the two
/// halves of each link's mask beside them, its zone, and per zone its number and its
/// weight, which is two for zones 110 and 120.
pub proof fn law_a_graph_is_written_link_by_link(
    json: GraphJson,
    g: GraphModel,
    numbers: Seq<u32>,
    u: int,
    i: int,
    b: int,
)
    requires
        describes(json, g, numbers),
        0 <= u < g.size(),
        0 <= i < g.links[u].len(),
        0 <= b < numbers.len(),
    ensures
        json.adjacency@.len() == g.size(),
        json.adjacency@[u]@.len() == g.links[u].len(),
        json.adjacency@[u]@[i] == g.links[u][i].0,
        json.edge_mask_lo@[u]@[i] + 0x1_0000_0000 * json.edge_mask_hi@[u]@[i] == g.links[u][i].1,
        json.zone_bits@ == g.zones,
        json.zone_numbers@ == numbers,
        json.zone_weights@[b] == if numbers[b] == 110 || numbers[b] == 120 {
            2int
        } else {
            1
        },
{
    lemma_described_entry(json, g, numbers, u, i);
    let mask = g.links[u][i].1;
    assert(nested(json.edge_mask_lo@).len() == g.size());
    assert(nested(json.edge_mask_hi@).len() == g.size());
    assert(nested(json.edge_mask_lo@)[u][i] == low_half(mask));
    assert(nested(json.edge_mask_hi@)[u][i] == high_half(mask));
    assert(nested(json.edge_mask_lo@)[u] == json.edge_mask_lo@[u]@);
    assert(nested(json.edge_mask_hi@)[u] == json.edge_mask_hi@[u]@);
    law_the_low_half_comes_first(mask);
    lemma_double_zones(numbers[b]);
}

} // verus!
