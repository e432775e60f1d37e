//! The station graph: adjacency over station indices, plus connectivity checks.
//!
//! Each edge carries the set of fare zones a vehicle *traverses* between two
//! consecutive stops, not merely the zone of the arrival stop. A ticket must
//! cover every zone the vehicle crosses, including zones where it does not stop,
//! so traversing `u -> v` unions in the edge's whole zone set. Whether that costs
//! anything depends on what has been paid for already, which is why the cost
//! lives in the search's labels rather than in a scalar edge weight.

use crate::bits::{has_bit, lemma_bit_or, lemma_bit_single};
pub use crate::graph_json::GraphJson;
pub use crate::shortcuts::{drop_shortcut_edges, DETOUR_DEN, DETOUR_NUM, MAX_HOPS};
use std::collections::HashMap;
use vstd::prelude::*;

verus! {

broadcast use vstd::std_specs::hash::group_hash_axioms;

/// The two ends of an edge, the smaller one first.
pub open spec fn ordered_pair(a: u32, b: u32) -> (u32, u32) {
    if a < b {
        (a, b)
    } else {
        (b, a)
    }
}

/// The zones an edge covers: those it traverses and those of its two ends.
pub open spec fn covered_mask(zones: Seq<u8>, edge: (u32, u32, u64)) -> u64 {
    edge.2 | (1u64 << zones[edge.0 as int]) | (1u64 << zones[edge.1 as int])
}

/// Whether position `i` of a merged edge list joins this pair.
pub open spec fn joins(merged: Seq<(u32, u32, u64)>, i: int, pair: (u32, u32)) -> bool {
    0 <= i < merged.len() && merged[i].0 == pair.0 && merged[i].1 == pair.1
}

/// An edge list without self-loops and with every stop pair once, at the place
/// of its first appearance. Where a pair appears more than once its masks are
/// unioned, since different services over the same pair may take different
/// alignments.
pub open spec fn merged_edges(zones: Seq<u8>, edges: Seq<(u32, u32, u64)>) -> Seq<
    (u32, u32, u64),
>
    decreases edges.len(),
{
    if edges.len() == 0 {
        Seq::empty()
    } else {
        let rest = merged_edges(zones, edges.drop_last());
        let edge = edges.last();
        let pair = ordered_pair(edge.0, edge.1);
        let mask = covered_mask(zones, edge);
        if edge.0 == edge.1 {
            rest
        } else if exists|i: int| joins(rest, i, pair) {
            let i = choose|i: int| joins(rest, i, pair);
            rest.update(i, (pair.0, pair.1, rest[i].2 | mask))
        } else {
            rest.push((pair.0, pair.1, mask))
        }
    }
}

/// The neighbours of `node` with the zones each edge covers, in list order.
pub open spec fn links_of(merged: Seq<(u32, u32, u64)>, node: int) -> Seq<(u32, u64)>
    decreases merged.len(),
{
    if merged.len() == 0 {
        Seq::empty()
    } else {
        let rest = links_of(merged.drop_last(), node);
        let edge = merged.last();
        if edge.0 == node {
            rest.push((edge.1, edge.2))
        } else if edge.1 == node {
            rest.push((edge.0, edge.2))
        } else {
            rest
        }
    }
}

/// What a graph holds: a zone index per node, and per node its neighbours with
/// the zones each edge covers.
#[verifier::ext_equal]
pub struct GraphModel {
    pub zones: Seq<u8>,
    pub links: Seq<Seq<(u32, u64)>>,
}

/// How many links there are over the first `k` nodes.
pub open spec fn link_total(links: Seq<Seq<(u32, u64)>>, k: nat) -> nat
    decreases k,
{
    if k == 0 {
        0
    } else {
        link_total(links, (k - 1) as nat) + links[k - 1].len()
    }
}

impl GraphModel {
    /// Number of nodes.
    pub open spec fn size(self) -> nat {
        self.zones.len()
    }

    /// Number of undirected edges.
    pub open spec fn edge_total(self) -> nat {
        link_total(self.links, self.links.len()) / 2
    }

    /// Every link leads to another node of the graph and back with the same
    /// zones, no neighbour is listed twice, and the mask of a link holds the
    /// zones of both its ends.
    pub open spec fn valid(self) -> bool {
        &&& self.links.len() == self.zones.len()
        &&& forall|u: int, i: int|
            #![trigger self.links[u][i]]
            0 <= u < self.size() && 0 <= i < self.links[u].len() ==> {
                &&& self.links[u][i].0 < self.size()
                &&& self.links[u][i].0 != u
                &&& self.zones[u] < 64
                &&& self.zones[self.links[u][i].0 as int] < 64
                &&& has_bit(self.links[u][i].1, self.zones[u] as int)
                &&& has_bit(self.links[u][i].1, self.zones[self.links[u][i].0 as int] as int)
                &&& self.links[self.links[u][i].0 as int].contains((u as u32, self.links[u][i].1))
            }
        &&& forall|u: int, i: int, j: int|
            #![trigger self.links[u][i], self.links[u][j]]
            0 <= u < self.size() && 0 <= i < j < self.links[u].len() ==> self.links[u][i].0
                != self.links[u][j].0
    }
}

/// What [`Graph::from_edges`] can build from: every edge between two different
/// nodes names nodes of the graph whose zones fit a 64-bit set.
pub open spec fn edges_in_range(zones: Seq<u8>, edges: Seq<(u32, u32, u64)>) -> bool {
    forall|k: int|
        0 <= k < edges.len() && #[trigger] edges[k].0 != edges[k].1 ==> {
            &&& edges[k].0 < zones.len()
            &&& edges[k].1 < zones.len()
            &&& zones[edges[k].0 as int] < 64
            &&& zones[edges[k].1 as int] < 64
        }
}

/// A merged list: ordered pairs of different nodes in range, each pair once, and
/// the zones of both ends in every mask.
pub open spec fn merged_valid(zones: Seq<u8>, merged: Seq<(u32, u32, u64)>) -> bool {
    &&& forall|k: int|
        #![trigger merged[k]]
        0 <= k < merged.len() ==> {
            &&& merged[k].0 < merged[k].1 < zones.len()
            &&& zones[merged[k].0 as int] < 64
            &&& zones[merged[k].1 as int] < 64
            &&& has_bit(merged[k].2, zones[merged[k].0 as int] as int)
            &&& has_bit(merged[k].2, zones[merged[k].1 as int] as int)
        }
    &&& forall|i: int, j: int|
        #![trigger merged[i], merged[j]]
        0 <= i < j < merged.len() ==> merged[i].0 != merged[j].0 || merged[i].1 != merged[j].1
}

pub proof fn lemma_merged_valid(zones: Seq<u8>, edges: Seq<(u32, u32, u64)>)
    requires
        edges_in_range(zones, edges),
    ensures
        merged_valid(zones, merged_edges(zones, edges)),
        merged_edges(zones, edges).len() <= edges.len(),
    decreases edges.len(),
{
    if edges.len() > 0 {
        let front = edges.drop_last();
        assert forall|k: int| 0 <= k < front.len() && #[trigger] front[k].0 != front[k].1 implies {
            &&& front[k].0 < zones.len()
            &&& front[k].1 < zones.len()
            &&& zones[front[k].0 as int] < 64
            &&& zones[front[k].1 as int] < 64
        } by {
            assert(front[k] == edges[k]);
        }
        lemma_merged_valid(zones, front);
        let rest = merged_edges(zones, front);
        let edge = edges.last();
        let pair = ordered_pair(edge.0, edge.1);
        if edge.0 != edge.1 {
            assert(edges[edges.len() - 1].0 != edges[edges.len() - 1].1);
            let za = zones[edge.0 as int];
            let zb = zones[edge.1 as int];
            let mask = covered_mask(zones, edge);
            lemma_bit_single(za);
            lemma_bit_single(zb);
            lemma_bit_or(edge.2, 1u64 << za);
            lemma_bit_or(edge.2 | (1u64 << za), 1u64 << zb);
            assert(has_bit(mask, za as int) && has_bit(mask, zb as int));
            if exists|i: int| joins(rest, i, pair) {
                let i = choose|i: int| joins(rest, i, pair);
                lemma_bit_or(rest[i].2, mask);
                let out = merged_edges(zones, edges);
                assert(out == rest.update(i, (pair.0, pair.1, rest[i].2 | mask)));
                assert forall|a: int, b: int|
                    #![trigger out[a], out[b]]
                    0 <= a < b < out.len() implies out[a].0 != out[b].0 || out[a].1 != out[b].1 by {
                    assert(rest[a].0 != rest[b].0 || rest[a].1 != rest[b].1);
                }
            } else {
                let out = merged_edges(zones, edges);
                assert(out == rest.push((pair.0, pair.1, mask)));
                assert forall|a: int, b: int|
                    #![trigger out[a], out[b]]
                    0 <= a < b < out.len() implies out[a].0 != out[b].0 || out[a].1 != out[b].1 by {
                    if b < rest.len() {
                        assert(rest[a].0 != rest[b].0 || rest[a].1 != rest[b].1);
                    } else {
                        assert(!joins(rest, a, pair));
                    }
                }
            }
        }
    }
}

/// Where a link of `node` comes from in the merged list.
pub open spec fn link_source(
    merged: Seq<(u32, u32, u64)>,
    node: int,
    link: (u32, u64),
    k: int,
) -> bool {
    &&& 0 <= k < merged.len()
    &&& merged[k].2 == link.1
    &&& (merged[k].0 == node && merged[k].1 == link.0) || (merged[k].1 == node && merged[k].0
        == link.0)
}

pub proof fn lemma_link_source(merged: Seq<(u32, u32, u64)>, node: int, i: int) -> (k: int)
    requires
        0 <= i < links_of(merged, node).len(),
    ensures
        link_source(merged, node, links_of(merged, node)[i], k),
    decreases merged.len(),
{
    let front = merged.drop_last();
    let part = links_of(front, node);
    if i < part.len() {
        lemma_link_source(front, node, i)
    } else {
        merged.len() - 1
    }
}

pub proof fn lemma_link_present(merged: Seq<(u32, u32, u64)>, node: int, k: int)
    requires
        0 <= k < merged.len(),
        merged[k].0 != merged[k].1,
        merged[k].0 == node || merged[k].1 == node,
    ensures
        links_of(merged, node).contains(
            (if merged[k].0 == node {
                merged[k].1
            } else {
                merged[k].0
            }, merged[k].2),
        ),
    decreases merged.len(),
{
    let link = (if merged[k].0 == node {
        merged[k].1
    } else {
        merged[k].0
    }, merged[k].2);
    let front = merged.drop_last();
    let all = links_of(merged, node);
    let part = links_of(front, node);
    if k < front.len() {
        lemma_link_present(front, node, k);
        let i = choose|i: int| 0 <= i < part.len() && part[i] == link;
        assert(all[i] == link);
    } else {
        assert(all[part.len() as int] == link);
    }
}

proof fn lemma_links_distinct(zones: Seq<u8>, merged: Seq<(u32, u32, u64)>, node: int)
    requires
        merged_valid(zones, merged),
    ensures
        forall|i: int, j: int|
            #![trigger links_of(merged, node)[i], links_of(merged, node)[j]]
            0 <= i < j < links_of(merged, node).len() ==> links_of(merged, node)[i].0 != links_of(
                merged,
                node,
            )[j].0,
    decreases merged.len(),
{
    if merged.len() > 0 {
        let front = merged.drop_last();
        assert(merged_valid(zones, front)) by {
            assert forall|i: int, j: int|
                #![trigger front[i], front[j]]
                0 <= i < j < front.len() implies front[i].0 != front[j].0 || front[i].1
                != front[j].1 by {
                assert(merged[i] == front[i] && merged[j] == front[j]);
            }
            assert forall|k: int| #![trigger front[k]] 0 <= k < front.len() implies {
                &&& front[k].0 < front[k].1 < zones.len()
                &&& zones[front[k].0 as int] < 64
                &&& zones[front[k].1 as int] < 64
                &&& has_bit(front[k].2, zones[front[k].0 as int] as int)
                &&& has_bit(front[k].2, zones[front[k].1 as int] as int)
            } by {
                assert(merged[k] == front[k]);
            }
        }
        lemma_links_distinct(zones, front, node);
        let all = links_of(merged, node);
        let part = links_of(front, node);
        assert forall|i: int, j: int|
            #![trigger all[i], all[j]]
            0 <= i < j < all.len() implies all[i].0 != all[j].0 by {
            if j < part.len() {
                assert(all[i] == part[i] && all[j] == part[j]);
            } else {
                assert(all[i] == part[i]);
                let k = lemma_link_source(front, node, i);
                let last = merged[merged.len() - 1];
                assert(merged[k] == front[k]);
                assert(merged[k].0 != last.0 || merged[k].1 != last.1);
                assert(merged[k].0 < merged[k].1);
                assert(last.0 < last.1);
            }
        }
    }
}

/// The model whose links are those of a merged list.
pub open spec fn model_of(zones: Seq<u8>, merged: Seq<(u32, u32, u64)>) -> GraphModel {
    GraphModel { zones, links: Seq::new(zones.len(), |u: int| links_of(merged, u)) }
}

proof fn lemma_model_valid(zones: Seq<u8>, merged: Seq<(u32, u32, u64)>)
    requires
        merged_valid(zones, merged),
        zones.len() <= u32::MAX + 1,
    ensures
        model_of(zones, merged).valid(),
{
    let g = model_of(zones, merged);
    assert forall|u: int, i: int|
        #![trigger g.links[u][i]]
        0 <= u < g.size() && 0 <= i < g.links[u].len() implies {
        &&& g.links[u][i].0 < g.size()
        &&& g.links[u][i].0 != u
        &&& g.zones[u] < 64
        &&& g.zones[g.links[u][i].0 as int] < 64
        &&& has_bit(g.links[u][i].1, g.zones[u] as int)
        &&& has_bit(g.links[u][i].1, g.zones[g.links[u][i].0 as int] as int)
        &&& g.links[g.links[u][i].0 as int].contains((u as u32, g.links[u][i].1))
    } by {
        let link = links_of(merged, u)[i];
        assert(g.links[u][i] == link);
        let k = lemma_link_source(merged, u, i);
        assert(merged[k].0 < merged[k].1 < zones.len());
        lemma_link_present(merged, link.0 as int, k);
    }
    assert forall|u: int, i: int, j: int|
        #![trigger g.links[u][i], g.links[u][j]]
        0 <= u < g.size() && 0 <= i < j < g.links[u].len() implies g.links[u][i].0
        != g.links[u][j].0 by {
        lemma_links_distinct(zones, merged, u);
        assert(links_of(merged, u)[i].0 != links_of(merged, u)[j].0);
    }
}

/// Sum of the degrees of the first `k` nodes in a merged list.
spec fn degree_sum(merged: Seq<(u32, u32, u64)>, k: nat) -> nat
    decreases k,
{
    if k == 0 {
        0
    } else {
        degree_sum(merged, (k - 1) as nat) + links_of(merged, k - 1).len()
    }
}

proof fn lemma_degree_sum_step(merged: Seq<(u32, u32, u64)>, k: nat)
    requires
        merged.len() > 0,
        merged.last().0 < merged.last().1,
    ensures
        degree_sum(merged, k) == degree_sum(merged.drop_last(), k) + (if merged.last().0 < k {
            1int
        } else {
            0
        }) + (if merged.last().1 < k {
            1int
        } else {
            0
        }),
    decreases k,
{
    if k > 0 {
        lemma_degree_sum_step(merged, (k - 1) as nat);
    }
}

proof fn lemma_degree_sum(merged: Seq<(u32, u32, u64)>, k: nat)
    requires
        forall|i: int|
            0 <= i < merged.len() ==> (#[trigger] merged[i]).0 < merged[i].1,
    ensures
        degree_sum(merged, k) <= 2 * merged.len(),
        (forall|i: int| 0 <= i < merged.len() ==> (#[trigger] merged[i]).1 < k) ==> degree_sum(
            merged,
            k,
        ) == 2 * merged.len(),
    decreases merged.len(),
{
    if merged.len() == 0 {
        lemma_degree_sum_empty(merged, k);
    } else {
        let front = merged.drop_last();
        assert forall|i: int| 0 <= i < front.len() implies (#[trigger] front[i]).0
            < front[i].1 by {
            assert(front[i] == merged[i]);
        }
        lemma_degree_sum(front, k);
        assert(merged[merged.len() - 1].0 < merged[merged.len() - 1].1);
        lemma_degree_sum_step(merged, k);
        if forall|i: int| 0 <= i < merged.len() ==> (#[trigger] merged[i]).1 < k {
            assert forall|i: int| 0 <= i < front.len() implies (#[trigger] front[i]).1 < k by {
                assert(front[i] == merged[i]);
            }
            assert(merged[merged.len() - 1].1 < k);
        }
    }
}

proof fn lemma_degree_sum_empty(merged: Seq<(u32, u32, u64)>, k: nat)
    requires
        merged.len() == 0,
    ensures
        degree_sum(merged, k) == 0,
    decreases k,
{
    if k > 0 {
        lemma_degree_sum_empty(merged, (k - 1) as nat);
    }
}

proof fn lemma_degree_sum_monotone(merged: Seq<(u32, u32, u64)>, j: nat, k: nat)
    requires
        j <= k,
    ensures
        degree_sum(merged, j) <= degree_sum(merged, k),
    decreases k,
{
    if j < k {
        lemma_degree_sum_monotone(merged, j, (k - 1) as nat);
    }
}

/// Links of a longer list extend those of a shorter one.
proof fn lemma_links_grow(merged: Seq<(u32, u32, u64)>, j: int, k: int, node: int)
    requires
        0 <= j <= k <= merged.len(),
    ensures
        links_of(merged.take(j), node).len() <= links_of(merged.take(k), node).len(),
        forall|i: int|
            0 <= i < links_of(merged.take(j), node).len() ==> #[trigger] links_of(
                merged.take(j),
                node,
            )[i] == links_of(merged.take(k), node)[i],
    decreases k - j,
{
    if j < k {
        lemma_links_grow(merged, j, k - 1, node);
        assert(merged.take(k).drop_last() =~= merged.take(k - 1));
    }
}

proof fn lemma_link_total_is_degree_sum(zones: Seq<u8>, merged: Seq<(u32, u32, u64)>, k: nat)
    requires
        k <= zones.len(),
    ensures
        link_total(model_of(zones, merged).links, k) == degree_sum(merged, k),
    decreases k,
{
    if k > 0 {
        lemma_link_total_is_degree_sum(zones, merged, (k - 1) as nat);
    }
}

/// The graph of a merged list is valid and holds every edge twice.
pub proof fn lemma_model_links(zones: Seq<u8>, merged: Seq<(u32, u32, u64)>)
    requires
        merged_valid(zones, merged),
        zones.len() <= u32::MAX,
    ensures
        model_of(zones, merged).valid(),
        link_total(model_of(zones, merged).links, zones.len()) == 2 * merged.len(),
{
    lemma_model_valid(zones, merged);
    assert forall|i: int| 0 <= i < merged.len() implies (#[trigger] merged[i]).0
        < merged[i].1 by {}
    assert forall|i: int| 0 <= i < merged.len() implies (#[trigger] merged[i]).1
        < zones.len() by {}
    lemma_degree_sum(merged, zones.len());
    lemma_link_total_is_degree_sum(zones, merged, zones.len());
}

proof fn lemma_merged_grows(zones: Seq<u8>, edges: Seq<(u32, u32, u64)>, j: int)
    requires
        0 <= j <= edges.len(),
    ensures
        merged_edges(zones, edges.take(j)).len() <= merged_edges(zones, edges).len(),
    decreases edges.len() - j,
{
    if j < edges.len() {
        lemma_merged_grows(zones, edges, j + 1);
        assert(edges.take(j + 1).drop_last() =~= edges.take(j));
    } else {
        assert(edges.take(j) =~= edges);
    }
}

/// Merging masks into entry `i` leaves every node's degree as it was.
proof fn lemma_links_len_update(
    merged: Seq<(u32, u32, u64)>,
    i: int,
    edge: (u32, u32, u64),
    node: int,
)
    requires
        joins(merged, i, (edge.0, edge.1)),
    ensures
        links_of(merged.update(i, edge), node).len() == links_of(merged, node).len(),
    decreases merged.len(),
{
    let changed = merged.update(i, edge);
    if i < merged.len() - 1 {
        lemma_links_len_update(merged.drop_last(), i, edge, node);
        assert(changed.drop_last() =~= merged.drop_last().update(i, edge));
    } else {
        assert(changed.drop_last() =~= merged.drop_last());
    }
}

spec fn pair_code(a: u32, b: u32) -> u64 {
    (a * 0x1_0000_0000 + b) as u64
}

/// The lookup table from coded pairs to their place in the merged list.
spec fn codes_match(seen: Map<u64, usize>, merged: Seq<(u32, u32, u64)>) -> bool {
    &&& forall|a: u32, b: u32|
        #![trigger pair_code(a, b)]
        seen.contains_key(pair_code(a, b)) ==> joins(
            merged,
            seen[pair_code(a, b)] as int,
            (a, b),
        )
    &&& forall|i: int|
        0 <= i < merged.len() ==> seen.contains_key(
            pair_code((#[trigger] merged[i]).0, merged[i].1),
        )
}

/// The merged edge list together with the degree of every node.
fn merge_edges(zones: &Vec<u8>, edges: &[(u32, u32, u64)]) -> (r: (
    Vec<(u32, u32, u64)>,
    Vec<u32>,
))
    requires
        edges_in_range(zones@, edges@),
        zones@.len() <= u32::MAX,
        2 * merged_edges(zones@, edges@).len() <= u32::MAX,
    ensures
        r.0@ == merged_edges(zones@, edges@),
        r.1@.len() == zones@.len(),
        forall|u: int| 0 <= u < zones@.len() ==> #[trigger] r.1@[u] == links_of(r.0@, u).len(),
{
    let n: usize = zones.len();
    let mut degree: Vec<u32> = vec![0u32; n];
    let mut seen: HashMap<u64, usize> = HashMap::new();
    let mut unique: Vec<(u32, u32, u64)> = Vec::new();
    let mut k: usize = 0;
    while k < edges.len()
        invariant
            k <= edges@.len(),
            n == zones@.len(),
            n <= u32::MAX,
            edges_in_range(zones@, edges@),
            2 * merged_edges(zones@, edges@).len() <= u32::MAX,
            unique@ == merged_edges(zones@, edges@.take(k as int)),
            merged_valid(zones@, unique@),
            codes_match(seen@, unique@),
            degree@.len() == n,
            forall|u: int| 0 <= u < n ==> #[trigger] degree@[u] == links_of(unique@, u).len(),
        decreases edges@.len() - k,
    {
        let (a, b, traversed) = edges[k];
        let ghost before = unique@;
        let ghost prefix = edges@.take(k + 1);
        proof {
            assert(prefix.drop_last() =~= edges@.take(k as int));
            assert(prefix.last() == (a, b, traversed));
            lemma_merged_grows(zones@, edges@, k + 1);
            assert forall|i: int|
                0 <= i < prefix.len() && #[trigger] prefix[i].0 != prefix[i].1 implies {
                &&& prefix[i].0 < zones@.len()
                &&& prefix[i].1 < zones@.len()
                &&& zones@[prefix[i].0 as int] < 64
                &&& zones@[prefix[i].1 as int] < 64
            } by {
                assert(prefix[i] == edges@[i]);
            }
            lemma_merged_valid(zones@, prefix);
        }
        if a != b {
            assert(edges@[k as int].0 != edges@[k as int].1);
            let (lo, hi) = if a < b {
                (a, b)
            } else {
                (b, a)
            };
            // Both endpoints are always part of what the edge covers.
            let mask: u64 = traversed | (1u64 << zones[a as usize]) | (1u64 << zones[b as usize]);
            let code: u64 = lo as u64 * 0x1_0000_0000 + hi as u64;
            assert(code == pair_code(lo, hi));
            match seen.get(&code) {
                Some(at) => {
                    let i: usize = *at;
                    assert(joins(before, i as int, (lo, hi)));
                    let known: u64 = unique[i].2;
                    unique.set(i, (lo, hi, known | mask));
                    proof {
                        let c = choose|c: int| joins(before, c, (lo, hi));
                        assert(c == i) by {
                            assert(joins(before, c, (lo, hi)));
                            if c < i {
                                assert(before[c].0 != before[i as int].0 || before[c].1
                                    != before[i as int].1);
                            } else if i < c {
                                assert(before[i as int].0 != before[c].0 || before[i as int].1
                                    != before[c].1);
                            }
                        }
                        assert forall|u: int| 0 <= u < n implies #[trigger] degree@[u] == links_of(
                            unique@,
                            u,
                        ).len() by {
                            lemma_links_len_update(before, i as int, (lo, hi, known | mask), u);
                        }
                        assert forall|x: u32, y: u32|
                            #![trigger pair_code(x, y)]
                            seen@.contains_key(pair_code(x, y)) implies joins(
                            unique@,
                            seen@[pair_code(x, y)] as int,
                            (x, y),
                        ) by {
                            assert(joins(before, seen@[pair_code(x, y)] as int, (x, y)));
                        }
                        assert forall|j: int| 0 <= j < unique@.len() implies seen@.contains_key(
                            pair_code((#[trigger] unique@[j]).0, unique@[j].1),
                        ) by {
                            assert(unique@[j].0 == before[j].0 && unique@[j].1 == before[j].1);
                        }
                    }
                },
                None => {
                    proof {
                        assert forall|c: int| !joins(before, c, (lo, hi)) by {
                            if joins(before, c, (lo, hi)) {
                                assert(seen@.contains_key(pair_code(before[c].0, before[c].1)));
                            }
                        }
                    }
                    let ghost seen_before = seen@;
                    seen.insert(code, unique.len());
                    unique.push((lo, hi, mask));
                    proof {
                        assert(unique@.drop_last() =~= before);
                        assert(unique@ == merged_edges(zones@, prefix));
                        lemma_link_degrees(before, lo as int);
                        lemma_link_degrees(before, hi as int);
                        assert forall|x: u32, y: u32|
                            #![trigger pair_code(x, y)]
                            seen@.contains_key(pair_code(x, y)) implies joins(
                            unique@,
                            seen@[pair_code(x, y)] as int,
                            (x, y),
                        ) by {
                            if pair_code(x, y) == code {
                                assert(x == lo && y == hi);
                            } else {
                                assert(seen_before.contains_key(pair_code(x, y)));
                                assert(joins(before, seen_before[pair_code(x, y)] as int, (x, y)));
                            }
                        }
                        assert forall|j: int| 0 <= j < unique@.len() implies seen@.contains_key(
                            pair_code((#[trigger] unique@[j]).0, unique@[j].1),
                        ) by {
                            if j < before.len() {
                                assert(unique@[j] == before[j]);
                            }
                        }
                    }
                    let da: u32 = degree[a as usize];
                    degree.set(a as usize, da + 1);
                    let db: u32 = degree[b as usize];
                    degree.set(b as usize, db + 1);
                },
            }
        }
        k = k + 1;
    }
    assert(edges@.take(k as int) =~= edges@);
    (unique, degree)
}

proof fn lemma_link_degrees(merged: Seq<(u32, u32, u64)>, node: int)
    ensures
        links_of(merged, node).len() <= merged.len(),
    decreases merged.len(),
{
    if merged.len() > 0 {
        lemma_link_degrees(merged.drop_last(), node);
    }
}

/// Row starts: where each node's links begin in the flat arrays.
fn row_starts(degree: &Vec<u32>, merged: Ghost<Seq<(u32, u32, u64)>>) -> (offsets: Vec<u32>)
    requires
        forall|u: int|
            0 <= u < degree@.len() ==> #[trigger] degree@[u] == links_of(merged@, u).len(),
        degree_sum(merged@, degree@.len()) <= u32::MAX,
    ensures
        offsets@.len() == degree@.len() + 1,
        forall|u: int|
            0 <= u <= degree@.len() ==> #[trigger] offsets@[u] == degree_sum(merged@, u as nat),
{
    let n: usize = degree.len();
    let mut offsets: Vec<u32> = Vec::new();
    offsets.push(0u32);
    let mut i: usize = 0;
    while i < n
        invariant
            n == degree@.len(),
            i <= n,
            offsets@.len() == i + 1,
            forall|u: int|
                0 <= u < n ==> #[trigger] degree@[u] == links_of(merged@, u).len(),
            degree_sum(merged@, n as nat) <= u32::MAX,
            forall|u: int|
                0 <= u <= i ==> #[trigger] offsets@[u] == degree_sum(merged@, u as nat),
        decreases n - i,
    {
        proof {
            lemma_degree_sum_monotone(merged@, (i + 1) as nat, n as nat);
        }
        let next: u32 = offsets[i] + degree[i];
        offsets.push(next);
        i = i + 1;
    }
    offsets
}

/// How far the flat arrays agree with the links of a merged list.
spec fn rows_filled(
    merged: Seq<(u32, u32, u64)>,
    j: int,
    n: int,
    adj: Seq<u32>,
    masks: Seq<u64>,
) -> bool {
    forall|u: int, i: int|
        #![trigger links_of(merged.take(j), u)[i]]
        0 <= u < n && 0 <= i < links_of(merged.take(j), u).len() ==> (
        adj[degree_sum(merged, u as nat) + i],
        masks[degree_sum(merged, u as nat) + i],
        ) == links_of(merged.take(j), u)[i]
}

proof fn lemma_rows_disjoint(merged: Seq<(u32, u32, u64)>, u: int, v: int, n: int)
    requires
        0 <= u < v < n,
    ensures
        degree_sum(merged, u as nat) + links_of(merged, u).len() <= degree_sum(merged, v as nat),
{
    lemma_degree_sum_monotone(merged, (u + 1) as nat, v as nat);
}

/// Writing the next link of `node` into its row keeps the rows filled so far.
proof fn lemma_row_write(
    merged: Seq<(u32, u32, u64)>,
    j: int,
    n: int,
    adj: Seq<u32>,
    masks: Seq<u64>,
    node: int,
    at: int,
    x: u32,
    m: u64,
)
    requires
        0 <= j <= merged.len(),
        0 <= node < n,
        adj.len() == masks.len() == degree_sum(merged, n as nat),
        rows_filled(merged, j, n, adj, masks),
        at == degree_sum(merged, node as nat) + links_of(merged.take(j), node).len(),
        links_of(merged.take(j), node).len() < links_of(merged, node).len(),
    ensures
        at < adj.len(),
        rows_filled(merged, j, n, adj.update(at, x), masks.update(at, m)),
{
    lemma_degree_sum_monotone(merged, (node + 1) as nat, n as nat);
    let adj2 = adj.update(at, x);
    let masks2 = masks.update(at, m);
    assert forall|u: int, i: int|
        #![trigger links_of(merged.take(j), u)[i]]
        0 <= u < n && 0 <= i < links_of(merged.take(j), u).len() implies (
    adj2[degree_sum(merged, u as nat) + i],
    masks2[degree_sum(merged, u as nat) + i],
    ) == links_of(merged.take(j), u)[i] by {
        lemma_links_grow(merged, j, merged.len() as int, u);
        lemma_links_grow(merged, j, merged.len() as int, node);
        assert(merged.take(merged.len() as int) =~= merged);
        if u < node {
            lemma_rows_disjoint(merged, u, node, n);
        } else if node < u {
            lemma_rows_disjoint(merged, node, u, n);
        }
        lemma_degree_sum_monotone(merged, (u + 1) as nat, n as nat);
    }
}

/// Lays the links of a merged list out in flat arrays, row by row.
fn fill_rows(
    offsets: &Vec<u32>,
    unique: &Vec<(u32, u32, u64)>,
    zones: &Vec<u8>,
) -> (r: (Vec<u32>, Vec<u64>))
    requires
        merged_valid(zones@, unique@),
        offsets@.len() == zones@.len() + 1,
        forall|u: int|
            0 <= u <= zones@.len() ==> #[trigger] offsets@[u] == degree_sum(unique@, u as nat),
    ensures
        r.0@.len() == r.1@.len() == degree_sum(unique@, zones@.len()),
        rows_filled(unique@, unique@.len() as int, zones@.len() as int, r.0@, r.1@),
{
    let n: usize = zones.len();
    let total: usize = offsets[n] as usize;
    let mut cursor: Vec<u32> = Vec::new();
    let mut c: usize = 0;
    while c < n
        invariant
            c <= n,
            n == zones@.len(),
            offsets@.len() == n + 1,
            cursor@.len() == c,
            forall|u: int| 0 <= u < c ==> #[trigger] cursor@[u] == offsets@[u],
        decreases n - c,
    {
        cursor.push(offsets[c]);
        c = c + 1;
    }
    let mut adj: Vec<u32> = vec![0u32; total];
    let mut masks: Vec<u64> = vec![0u64; total];
    let mut j: usize = 0;
    proof {
        assert forall|u: int| links_of(#[trigger] unique@.take(0), u).len() == 0 by {}
        assert(rows_filled(unique@, 0, n as int, adj@, masks@));
    }
    while j < unique.len()
        invariant
            j <= unique@.len(),
            n == zones@.len(),
            merged_valid(zones@, unique@),
            degree_sum(unique@, n as nat) == total,
            total <= u32::MAX,
            adj@.len() == masks@.len() == total,
            cursor@.len() == n,
            forall|u: int|
                0 <= u < n ==> #[trigger] cursor@[u] == degree_sum(unique@, u as nat) + links_of(
                    unique@.take(j as int),
                    u,
                ).len(),
            rows_filled(unique@, j as int, n as int, adj@, masks@),
        decreases unique@.len() - j,
    {
        let (a, b, mask) = unique[j];
        let ghost merged = unique@;
        let ghost next = merged.take(j + 1);
        assert(merged[j as int] == (a, b, mask));
        proof {
            assert(next.drop_last() =~= merged.take(j as int));
            assert(merged.take(merged.len() as int) =~= merged);
            lemma_links_grow(merged, j + 1, merged.len() as int, a as int);
            lemma_links_grow(merged, j + 1, merged.len() as int, b as int);
            lemma_row_write(
                merged,
                j as int,
                n as int,
                adj@,
                masks@,
                a as int,
                cursor@[a as int] as int,
                b,
                mask,
            );
            lemma_degree_sum_monotone(merged, (a + 1) as nat, n as nat);
            lemma_degree_sum_monotone(merged, (b + 1) as nat, n as nat);
            lemma_rows_disjoint(merged, a as int, b as int, n as int);
        }
        let at: u32 = cursor[a as usize];
        adj.set(at as usize, b);
        masks.set(at as usize, mask);
        cursor.set(a as usize, at + 1);
        proof {
            lemma_row_write(
                merged,
                j as int,
                n as int,
                adj@,
                masks@,
                b as int,
                cursor@[b as int] as int,
                a,
                mask,
            );
        }
        let bt: u32 = cursor[b as usize];
        adj.set(bt as usize, a);
        masks.set(bt as usize, mask);
        cursor.set(b as usize, bt + 1);
        proof {
            assert forall|u: int, i: int|
                #![trigger links_of(next, u)[i]]
                0 <= u < n && 0 <= i < links_of(next, u).len() implies (
            adj@[degree_sum(merged, u as nat) + i],
            masks@[degree_sum(merged, u as nat) + i],
            ) == links_of(next, u)[i] by {
                let part = links_of(merged.take(j as int), u);
                if i < part.len() {
                    assert(links_of(next, u)[i] == part[i]);
                } else {
                    assert(u == a || u == b);
                }
            }
        }
        j = j + 1;
    }
    (adj, masks)
}

/// One node's links, read out of the flat arrays.
spec fn row(offsets: Seq<u32>, adj: Seq<u32>, masks: Seq<u64>, u: int) -> Seq<(u32, u64)> {
    Seq::new(
        (offsets[u + 1] - offsets[u]) as nat,
        |i: int| (adj[offsets[u] + i], masks[offsets[u] + i]),
    )
}

/// An undirected station graph.
///
/// Adjacency is stored flat: the links of `u` are the entries from `offsets[u]`
/// up to `offsets[u + 1]` of `adj` and `masks`.
#[derive(Debug)]
pub struct Graph {
    zones: Vec<u8>,
    offsets: Vec<u32>,
    adj: Vec<u32>,
    masks: Vec<u64>,
}

impl View for Graph {
    type V = GraphModel;

    closed spec fn view(&self) -> GraphModel {
        GraphModel {
            zones: self.zones@,
            links: Seq::new(
                self.zones@.len(),
                |u: int| row(self.offsets@, self.adj@, self.masks@, u),
            ),
        }
    }
}

impl Clone for Graph {
    fn clone(&self) -> (r: Graph)
        ensures
            r@ == self@,
    {
        proof {
            use_type_invariant(self);
        }
        let zones = self.zones.clone();
        let offsets = self.offsets.clone();
        let adj = self.adj.clone();
        let masks = self.masks.clone();
        assert(zones@ =~= self.zones@);
        assert(offsets@ =~= self.offsets@);
        assert(adj@ =~= self.adj@);
        assert(masks@ =~= self.masks@);
        Graph { zones, offsets, adj, masks }
    }
}

impl Graph {
    #[verifier::type_invariant]
    spec fn inv(&self) -> bool {
        &&& self.zones@.len() <= u32::MAX
        &&& self.offsets@.len() == self.zones@.len() + 1
        &&& self.offsets@[0] == 0
        &&& forall|u: int, v: int|
            #![trigger self.offsets@[u], self.offsets@[v]]
            0 <= u <= v < self.offsets@.len() ==> self.offsets@[u] <= self.offsets@[v]
        &&& self.offsets@[self.zones@.len() as int] == self.adj@.len()
        &&& self.masks@.len() == self.adj@.len()
        &&& self@.valid()
    }

    /// Build from an undirected edge list of `(u, v, traversed_zone_mask)`.
    ///
    /// Edges are deduplicated and self-loops dropped. Where the same stop pair
    /// appears more than once the masks are unioned. Node ids and the flat link
    /// arrays are indexed in 32 bits.
    pub fn from_edges(zones: Vec<u8>, edges: &[(u32, u32, u64)]) -> (r: Graph)
        requires
            edges_in_range(zones@, edges@),
            zones@.len() <= u32::MAX,
            2 * merged_edges(zones@, edges@).len() <= u32::MAX,
        ensures
            r@ == model_of(zones@, merged_edges(zones@, edges@)),
            r@.valid(),
            r@.edge_total() == merged_edges(zones@, edges@).len(),
    {
        let (unique, degree) = merge_edges(&zones, edges);
        proof {
            lemma_merged_valid(zones@, edges@);
            assert forall|i: int| 0 <= i < unique@.len() implies (#[trigger] unique@[i]).0
                < unique@[i].1 by {}
            assert forall|i: int| 0 <= i < unique@.len() implies (#[trigger] unique@[i]).1
                < zones@.len() by {}
            lemma_degree_sum(unique@, zones@.len());
        }
        let offsets = row_starts(&degree, Ghost(unique@));
        let (adj, masks) = fill_rows(&offsets, &unique, &zones);
        proof {
            let n = zones@.len();
            let merged = unique@;
            assert(merged.take(merged.len() as int) =~= merged);
            assert forall|u: int, v: int|
                #![trigger offsets@[u], offsets@[v]]
                0 <= u <= v < offsets@.len() implies offsets@[u] <= offsets@[v] by {
                lemma_degree_sum_monotone(merged, u as nat, v as nat);
            }
            assert forall|u: int| 0 <= u < n implies row(
                offsets@,
                adj@,
                masks@,
                u,
            ) == #[trigger] links_of(merged, u) by {
                assert(offsets@[u + 1] == degree_sum(merged, (u + 1) as nat));
                assert(row(offsets@, adj@, masks@, u) =~= links_of(merged, u));
            }
            let links = Seq::new(n, |u: int| row(offsets@, adj@, masks@, u));
            assert(links =~= model_of(zones@, merged).links);
            lemma_model_valid(zones@, merged);
            lemma_link_total_is_degree_sum(zones@, merged, n);
        }
        Graph { zones, offsets, adj, masks }
    }

    pub fn node_count(&self) -> (r: usize)
        ensures
            r == self@.size(),
            r <= u32::MAX,
            link_total(self@.links, self@.size()) <= u32::MAX,
            self@.valid(),
    {
        proof {
            use_type_invariant(self);
            self.lemma_link_total(self.zones@.len());
        }
        self.zones.len()
    }

    pub fn edge_count(&self) -> (r: usize)
        ensures
            r == self@.edge_total(),
    {
        proof {
            use_type_invariant(self);
            self.lemma_link_total(self.zones@.len());
        }
        self.adj.len() / 2
    }

    proof fn lemma_link_total(&self, k: nat)
        requires
            self.inv(),
            k <= self.zones@.len(),
        ensures
            link_total(self@.links, k) == self.offsets@[k as int],
        decreases k,
    {
        if k > 0 {
            self.lemma_link_total((k - 1) as nat);
            assert(self.offsets@[k - 1] <= self.offsets@[k as int]);
        }
    }

    /// The zone bit-index of a node.
    pub fn zone_of(&self, node: u32) -> (r: u8)
        requires
            node < self@.size(),
        ensures
            r == self@.zones[node as int],
    {
        self.zones[node as usize]
    }

    pub fn neighbours(&self, node: u32) -> (r: &[u32])
        requires
            node < self@.size(),
        ensures
            r@ == Seq::new(
                self@.links[node as int].len(),
                |i: int| self@.links[node as int][i].0,
            ),
            self@.valid(),
    {
        proof {
            use_type_invariant(self);
        }
        let s: usize = self.offsets[node as usize] as usize;
        let e: usize = self.offsets[node as usize + 1] as usize;
        proof {
            assert(self.offsets@[node as int] <= self.offsets@[node + 1]);
            assert(self.offsets@[node + 1] <= self.offsets@[self.zones@.len() as int]);
        }
        let r = vstd::slice::slice_subrange(self.adj.as_slice(), s, e);
        assert(r@ =~= Seq::new(
            self@.links[node as int].len(),
            |i: int| self@.links[node as int][i].0,
        ));
        r
    }

    /// Neighbours of `node` paired with the zones each edge traverses.
    pub fn edges_from(&self, node: u32) -> (r: Vec<(u32, u64)>)
        requires
            node < self@.size(),
        ensures
            r@ == self@.links[node as int],
            self@.valid(),
    {
        proof {
            use_type_invariant(self);
        }
        let s: usize = self.offsets[node as usize] as usize;
        let e: usize = self.offsets[node as usize + 1] as usize;
        proof {
            assert(self.offsets@[node as int] <= self.offsets@[node + 1]);
            assert(self.offsets@[node + 1] <= self.offsets@[self.zones@.len() as int]);
        }
        let mut out: Vec<(u32, u64)> = Vec::new();
        let mut i: usize = s;
        while i < e
            invariant
                self.masks@.len() == self.adj@.len(),
                s <= i <= e <= self.adj@.len(),
                out@.len() == i - s,
                forall|k: int|
                    0 <= k < out@.len() ==> #[trigger] out@[k] == (
                        self.adj@[s + k],
                        self.masks@[s + k],
                    ),
            decreases e - i,
        {
            out.push((self.adj[i], self.masks[i]));
            i = i + 1;
        }
        assert(out@ =~= self@.links[node as int]);
        out
    }
}

// ------------------------------------------------------- what the links mean

/// What the merged list says of a pair of nodes.
proof fn lemma_merged_pair(zones: Seq<u8>, edges: Seq<(u32, u32, u64)>, a: u32, b: u32)
    requires
        edges_in_range(zones, edges),
        a < b,
    ensures
        (exists|m: int| joins(merged_edges(zones, edges), m, (a, b))) <==> exists|k: int|
            0 <= k < edges.len() && ((#[trigger] edges[k]).0 == a && edges[k].1 == b || edges[k].0
                == b && edges[k].1 == a),
        forall|m: int, bit: int|
            #![trigger has_bit(merged_edges(zones, edges)[m].2, bit)]
            joins(merged_edges(zones, edges), m, (a, b)) ==> (has_bit(
                merged_edges(zones, edges)[m].2,
                bit,
            ) <==> bit == zones[a as int] || bit == zones[b as int] || exists|k: int|
                0 <= k < edges.len() && ((#[trigger] edges[k]).0 == a && edges[k].1 == b
                    || edges[k].0 == b && edges[k].1 == a) && has_bit(edges[k].2, bit)),
    decreases edges.len(),
{
    let all = merged_edges(zones, edges);
    if edges.len() > 0 {
        let front = edges.drop_last();
        assert forall|k: int| 0 <= k < front.len() && #[trigger] front[k].0 != front[k].1 implies {
            &&& front[k].0 < zones.len()
            &&& front[k].1 < zones.len()
            &&& zones[front[k].0 as int] < 64
            &&& zones[front[k].1 as int] < 64
        } by {
            assert(front[k] == edges[k]);
        }
        lemma_merged_pair(zones, front, a, b);
        lemma_merged_valid(zones, edges);
        lemma_merged_valid(zones, front);
        let rest = merged_edges(zones, front);
        let last = edges.len() - 1;
        let edge = edges[last];
        let pair = ordered_pair(edge.0, edge.1);
        let mask = covered_mask(zones, edge);
        let here = edge.0 == a && edge.1 == b || edge.0 == b && edge.1 == a;
        // Which of the edges join the pair.
        if exists|k: int|
            0 <= k < front.len() && ((#[trigger] front[k]).0 == a && front[k].1 == b || front[k].0
                == b && front[k].1 == a) {
            let k = choose|k: int|
                0 <= k < front.len() && ((#[trigger] front[k]).0 == a && front[k].1 == b
                    || front[k].0 == b && front[k].1 == a);
            assert(edges[k] == front[k]);
        }
        if exists|k: int|
            0 <= k < edges.len() && ((#[trigger] edges[k]).0 == a && edges[k].1 == b || edges[k].0
                == b && edges[k].1 == a) {
            let k = choose|k: int|
                0 <= k < edges.len() && ((#[trigger] edges[k]).0 == a && edges[k].1 == b
                    || edges[k].0 == b && edges[k].1 == a);
            if k < last {
                assert(front[k] == edges[k]);
            }
        }
        if exists|m: int| joins(rest, m, (a, b)) {
            let m = choose|m: int| joins(rest, m, (a, b));
            assert(joins(all, m, (a, b)));
        }
        if here {
            assert(pair == (a, b));
            if !exists|i: int| joins(rest, i, pair) {
                assert(joins(all, rest.len() as int, (a, b)));
            }
        }
        if exists|m: int| joins(all, m, (a, b)) {
            let m = choose|m: int| joins(all, m, (a, b));
            if m < rest.len() {
                assert(joins(rest, m, (a, b)));
            } else {
                assert(here);
                assert(edges[last] == edge);
            }
        }
        assert forall|m: int, bit: int|
            #![trigger has_bit(all[m].2, bit)]
            joins(all, m, (a, b)) implies (has_bit(all[m].2, bit) <==> bit == zones[a as int]
            || bit == zones[b as int] || exists|k: int|
            0 <= k < edges.len() && ((#[trigger] edges[k]).0 == a && edges[k].1 == b || edges[k].0
                == b && edges[k].1 == a) && has_bit(edges[k].2, bit)) by {
            if here {
                lemma_covered_bits(zones, edge, bit);
                if m < rest.len() {
                    assert(joins(rest, m, (a, b)));
                    let i = choose|i: int| joins(rest, i, pair);
                    assert(i == m);
                    lemma_bit_or(rest[m].2, mask);
                    assert(has_bit(rest[m].2, bit) <==> bit == zones[a as int] || bit
                        == zones[b as int] || exists|k: int|
                        0 <= k < front.len() && ((#[trigger] front[k]).0 == a && front[k].1 == b
                            || front[k].0 == b && front[k].1 == a) && has_bit(front[k].2, bit));
                    assert(has_bit(all[m].2, bit) <==> has_bit(rest[m].2, bit) || has_bit(mask, bit));
                    if has_bit(rest[m].2, bit) && bit != zones[a as int] && bit != zones[b as int] {
                        let k = choose|k: int|
                            0 <= k < front.len() && ((#[trigger] front[k]).0 == a && front[k].1
                                == b || front[k].0 == b && front[k].1 == a) && has_bit(
                                front[k].2,
                                bit,
                            );
                        assert(edges[k] == front[k]);
                    }
                } else {
                    assert(all[m].2 == mask);
                    if exists|i: int| joins(rest, i, pair) {
                        let i = choose|i: int| joins(rest, i, pair);
                        assert(all.len() == rest.len());
                    }
                    assert forall|k: int| 0 <= k < front.len() implies !((#[trigger] front[k]).0
                        == a && front[k].1 == b || front[k].0 == b && front[k].1 == a) by {}
                }
                if exists|k: int|
                    0 <= k < edges.len() && ((#[trigger] edges[k]).0 == a && edges[k].1 == b
                        || edges[k].0 == b && edges[k].1 == a) && has_bit(edges[k].2, bit) {
                    let k = choose|k: int|
                        0 <= k < edges.len() && ((#[trigger] edges[k]).0 == a && edges[k].1 == b
                            || edges[k].0 == b && edges[k].1 == a) && has_bit(edges[k].2, bit);
                    if k < last {
                        assert(front[k] == edges[k]);
                    }
                }
                assert(edges[last] == edge);
            } else {
                assert(m < rest.len() && all[m] == rest[m]) by {
                    if edge.0 != edge.1 {
                        assert(pair != (a, b));
                    }
                }
                assert(joins(rest, m, (a, b)));
                assert(has_bit(rest[m].2, bit) <==> bit == zones[a as int] || bit
                    == zones[b as int] || exists|k: int|
                    0 <= k < front.len() && ((#[trigger] front[k]).0 == a && front[k].1 == b
                        || front[k].0 == b && front[k].1 == a) && has_bit(front[k].2, bit));
                if exists|k: int|
                    0 <= k < front.len() && ((#[trigger] front[k]).0 == a && front[k].1 == b
                        || front[k].0 == b && front[k].1 == a) && has_bit(front[k].2, bit) {
                    let k = choose|k: int|
                        0 <= k < front.len() && ((#[trigger] front[k]).0 == a && front[k].1 == b
                            || front[k].0 == b && front[k].1 == a) && has_bit(front[k].2, bit);
                    assert(edges[k] == front[k]);
                }
                if exists|k: int|
                    0 <= k < edges.len() && ((#[trigger] edges[k]).0 == a && edges[k].1 == b
                        || edges[k].0 == b && edges[k].1 == a) && has_bit(edges[k].2, bit) {
                    let k = choose|k: int|
                        0 <= k < edges.len() && ((#[trigger] edges[k]).0 == a && edges[k].1 == b
                            || edges[k].0 == b && edges[k].1 == a) && has_bit(edges[k].2, bit);
                    assert(k < last);
                    assert(front[k] == edges[k]);
                }
            }
        }
    }
}

proof fn lemma_covered_bits(zones: Seq<u8>, edge: (u32, u32, u64), bit: int)
    requires
        zones[edge.0 as int] < 64,
        zones[edge.1 as int] < 64,
    ensures
        has_bit(covered_mask(zones, edge), bit) <==> has_bit(edge.2, bit) || bit
            == zones[edge.0 as int] || bit == zones[edge.1 as int],
{
    let za = zones[edge.0 as int];
    let zb = zones[edge.1 as int];
    lemma_bit_single(za);
    lemma_bit_single(zb);
    lemma_bit_or(edge.2, 1u64 << za);
    lemma_bit_or(edge.2 | (1u64 << za), 1u64 << zb);
}

/// What a graph is built of. Two stations are linked exactly when some edge between
/// them is listed, in either direction; a link crosses the zones of both its ends and
/// every zone that any edge between them crosses, and no other.
pub proof fn law_links_are_the_listed_edges(
    zones: Seq<u8>,
    edges: Seq<(u32, u32, u64)>,
    u: u32,
    v: u32,
)
    requires
        edges_in_range(zones, edges),
        zones.len() <= u32::MAX,
        u < zones.len(),
        v < zones.len(),
    ensures
        ({
            let g = model_of(zones, merged_edges(zones, edges));
            let row = g.links[u as int];
            &&& g.zones == zones
            &&& (exists|i: int| 0 <= i < row.len() && (#[trigger] row[i]).0 == v) <==> u != v
                && exists|k: int|
                0 <= k < edges.len() && ((#[trigger] edges[k]).0 == u && edges[k].1 == v
                    || edges[k].0 == v && edges[k].1 == u)
            &&& forall|i: int, bit: int|
                #![trigger has_bit(row[i].1, bit)]
                0 <= i < row.len() && row[i].0 == v ==> (has_bit(row[i].1, bit) <==> bit
                    == zones[u as int] || bit == zones[v as int] || exists|k: int|
                    0 <= k < edges.len() && ((#[trigger] edges[k]).0 == u && edges[k].1 == v
                        || edges[k].0 == v && edges[k].1 == u) && has_bit(edges[k].2, bit))
        }),
{
    let merged = merged_edges(zones, edges);
    let g = model_of(zones, merged);
    let row = g.links[u as int];
    lemma_merged_valid(zones, edges);
    lemma_model_links(zones, merged);
    assert(row == links_of(merged, u as int));
    if u != v {
        let (a, b) = if u < v {
            (u, v)
        } else {
            (v, u)
        };
        lemma_merged_pair(zones, edges, a, b);
        if exists|m: int| joins(merged, m, (a, b)) {
            let m = choose|m: int| joins(merged, m, (a, b));
            lemma_link_present(merged, u as int, m);
            let i = choose|i: int|
                0 <= i < row.len() && row[i] == (if merged[m].0 == u {
                    merged[m].1
                } else {
                    merged[m].0
                }, merged[m].2);
            assert(row[i].0 == v);
        }
        if exists|i: int| 0 <= i < row.len() && (#[trigger] row[i]).0 == v {
            let i = choose|i: int| 0 <= i < row.len() && (#[trigger] row[i]).0 == v;
            let m = lemma_link_source(merged, u as int, i);
            assert(merged[m].0 < merged[m].1);
            assert(joins(merged, m, (a, b)));
        }
        assert forall|i: int, bit: int|
            #![trigger has_bit(row[i].1, bit)]
            0 <= i < row.len() && row[i].0 == v implies (has_bit(row[i].1, bit) <==> bit
            == zones[u as int] || bit == zones[v as int] || exists|k: int|
            0 <= k < edges.len() && ((#[trigger] edges[k]).0 == u && edges[k].1 == v || edges[k].0
                == v && edges[k].1 == u) && has_bit(edges[k].2, bit)) by {
            let m = lemma_link_source(merged, u as int, i);
            assert(merged[m].0 < merged[m].1);
            assert(joins(merged, m, (a, b)));
            assert(has_bit(merged[m].2, bit) <==> has_bit(row[i].1, bit));
        }
    } else {
        assert forall|i: int| 0 <= i < row.len() implies (#[trigger] row[i]).0 != v by {
            assert(g.links[u as int][i].0 != u);
        }
    }
}

/// Pairs of stations are listed in the order in which an edge first joins them, and a
/// station's links in that order too.
pub proof fn law_links_come_in_order_of_first_mention(
    zones: Seq<u8>,
    edges: Seq<(u32, u32, u64)>,
    j: int,
)
    requires
        0 <= j <= edges.len(),
    ensures
        ({
            let part = merged_edges(zones, edges.take(j));
            let all = merged_edges(zones, edges);
            &&& part.len() <= all.len()
            &&& forall|i: int|
                0 <= i < part.len() ==> (#[trigger] part[i]).0 == all[i].0 && part[i].1 == all[i].1
        }),
    decreases edges.len() - j,
{
    if j < edges.len() {
        law_links_come_in_order_of_first_mention(zones, edges, j + 1);
        assert(edges.take(j + 1).drop_last() =~= edges.take(j));
        let part = merged_edges(zones, edges.take(j));
        let next = merged_edges(zones, edges.take(j + 1));
        let all = merged_edges(zones, edges);
        assert forall|i: int| 0 <= i < part.len() implies (#[trigger] part[i]).0 == all[i].0
            && part[i].1 == all[i].1 by {
            assert(next[i].0 == part[i].0 && next[i].1 == part[i].1);
        }
    } else {
        assert(edges.take(j) =~= edges);
    }
}

/// A station's links are those of its pairs, in their order.
pub proof fn law_a_row_lists_its_pairs(merged: Seq<(u32, u32, u64)>, node: int)
    ensures
        links_of(merged, node) == merged.filter_map(
            |e: (u32, u32, u64)|
                if e.0 == node {
                    Some((e.1, e.2))
                } else if e.1 == node {
                    Some((e.0, e.2))
                } else {
                    None
                },
        ),
    decreases merged.len(),
{
    if merged.len() > 0 {
        law_a_row_lists_its_pairs(merged.drop_last(), node);
        assert(links_of(merged, node) =~= merged.filter_map(
            |e: (u32, u32, u64)|
                if e.0 == node {
                    Some((e.1, e.2))
                } else if e.1 == node {
                    Some((e.0, e.2))
                } else {
                    None
                },
        ));
    }
}

} // verus!
