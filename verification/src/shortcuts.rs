//! Express edges that a local service on the same alignment already covers.

use vstd::prelude::*;

verus! {

/// The longest detour that still follows an express edge's alignment is
/// `DETOUR_NUM / DETOUR_DEN` times its length.
pub const DETOUR_NUM: u64 = 16;

pub const DETOUR_DEN: u64 = 10;

/// The most edges that such a detour may take.
pub const MAX_HOPS: u32 = 12;

/// Whether an edge starts or ends at `x`.
pub open spec fn touches(edge: (u32, u32, u64), x: u32) -> bool {
    edge.0 == x || edge.1 == x
}

/// Where an edge leads from `x`.
pub open spec fn far_end(edge: (u32, u32, u64), x: u32) -> u32 {
    if edge.0 == x {
        edge.1
    } else {
        edge.0
    }
}

/// The node at the end of a trail, which is a sequence of edges taken in either
/// direction, each by its position in the edge list.
pub open spec fn trail_end(edges: Seq<(u32, u32, u64)>, from: u32, trail: Seq<int>) -> u32
    decreases trail.len(),
{
    if trail.len() == 0 {
        from
    } else {
        far_end(edges[trail.last()], trail_end(edges, from, trail.drop_last()))
    }
}

/// Whether every edge of a trail exists and starts where the one before ended.
pub open spec fn is_trail(edges: Seq<(u32, u32, u64)>, from: u32, trail: Seq<int>) -> bool
    decreases trail.len(),
{
    trail.len() == 0 || {
        &&& is_trail(edges, from, trail.drop_last())
        &&& 0 <= trail.last() < edges.len()
        &&& touches(edges[trail.last()], trail_end(edges, from, trail.drop_last()))
    }
}

/// The length of a trail.
pub open spec fn trail_length(lens: Seq<u64>, trail: Seq<int>) -> nat
    decreases trail.len(),
{
    if trail.len() == 0 {
        0
    } else {
        trail_length(lens, trail.drop_last()) + lens[trail.last()] as nat
    }
}

/// Whether every edge of a trail is shorter than `own`.
pub open spec fn all_shorter(lens: Seq<u64>, own: u64, trail: Seq<int>) -> bool {
    forall|i: int| 0 <= i < trail.len() ==> lens[#[trigger] trail[i]] < own
}

/// Whether a trail of shorter edges joins the two ends of edge `e` within
/// `num / den` times its length and within `max_hops` edges.
pub open spec fn is_local_path(
    edges: Seq<(u32, u32, u64)>,
    lens: Seq<u64>,
    e: int,
    num: u64,
    den: u64,
    max_hops: u32,
    trail: Seq<int>,
) -> bool {
    &&& is_trail(edges, edges[e].0, trail)
    &&& trail_end(edges, edges[e].0, trail) == edges[e].1
    &&& all_shorter(lens, lens[e], trail)
    &&& trail_length(lens, trail) * den <= lens[e] * num
    &&& trail.len() <= max_hops
}

/// Whether edge `e` is a shortcut: some local path already joins its ends.
pub open spec fn is_shortcut(
    edges: Seq<(u32, u32, u64)>,
    lens: Seq<u64>,
    e: int,
    num: u64,
    den: u64,
    max_hops: u32,
) -> bool {
    exists|trail: Seq<int>| is_local_path(edges, lens, e, num, den, max_hops, trail)
}

/// Those of the first `k` edges that are no shortcuts, in their order.
pub open spec fn survivors(
    edges: Seq<(u32, u32, u64)>,
    lens: Seq<u64>,
    num: u64,
    den: u64,
    max_hops: u32,
    k: nat,
) -> Seq<(u32, u32, u64)>
    decreases k,
{
    if k == 0 {
        Seq::empty()
    } else {
        let rest = survivors(edges, lens, num, den, max_hops, (k - 1) as nat);
        if is_shortcut(edges, lens, k - 1, num, den, max_hops) {
            rest
        } else {
            rest.push(edges[k - 1])
        }
    }
}

/// Whether every edge joins nodes below `n`.
pub open spec fn ends_below(edges: Seq<(u32, u32, u64)>, n: nat) -> bool {
    forall|i: int| 0 <= i < edges.len() ==> (#[trigger] edges[i]).0 < n && edges[i].1 < n
}

// ------------------------------------------------- least distances by hops

/// Whether a trail of edges shorter than `own` leads to `y` within `limit`.
spec fn leads_to(
    edges: Seq<(u32, u32, u64)>,
    lens: Seq<u64>,
    from: u32,
    own: u64,
    limit: nat,
    y: u32,
    trail: Seq<int>,
) -> bool {
    &&& is_trail(edges, from, trail)
    &&& trail_end(edges, from, trail) == y
    &&& all_shorter(lens, own, trail)
    &&& trail_length(lens, trail) <= limit
}

/// Whether `d` is the length of some such trail of at most `k` edges.
spec fn is_distance(
    edges: Seq<(u32, u32, u64)>,
    lens: Seq<u64>,
    from: u32,
    own: u64,
    limit: nat,
    k: nat,
    y: u32,
    d: nat,
) -> bool {
    exists|trail: Seq<int>|
        {
            &&& #[trigger] leads_to(edges, lens, from, own, limit, y, trail)
            &&& trail.len() <= k
            &&& trail_length(lens, trail) == d
        }
}

/// Every recorded distance is one of a trail of at most `k` edges.
spec fn all_real(
    edges: Seq<(u32, u32, u64)>,
    lens: Seq<u64>,
    from: u32,
    own: u64,
    limit: nat,
    k: nat,
    best: Seq<Option<u128>>,
) -> bool {
    forall|y: u32|
        y < best.len() && (#[trigger] best[y as int]) is Some ==> is_distance(
            edges,
            lens,
            from,
            own,
            limit,
            k,
            y,
            best[y as int]->0 as nat,
        )
}

/// Whether the recorded distance of `y` is at most `d`.
spec fn at_most(best: Seq<Option<u128>>, y: u32, d: nat) -> bool {
    best[y as int] is Some && best[y as int]->0 <= d
}

/// No trail of at most `k` edges beats what is recorded.
spec fn all_beaten(
    edges: Seq<(u32, u32, u64)>,
    lens: Seq<u64>,
    from: u32,
    own: u64,
    limit: nat,
    k: nat,
    best: Seq<Option<u128>>,
) -> bool {
    forall|y: u32, trail: Seq<int>| #[trigger]
        leads_to(edges, lens, from, own, limit, y, trail) && trail.len() <= k ==> at_most(
            best,
            y,
            trail_length(lens, trail),
        )
}

/// Whether `next` records what edge `i` makes of `best` in the direction from
/// `x` to `y`.
spec fn passed_on(
    best: Seq<Option<u128>>,
    next: Seq<Option<u128>>,
    len: u64,
    limit: nat,
    x: u32,
    y: u32,
) -> bool {
    best[x as int] is Some && best[x as int]->0 + len <= limit ==> at_most(
        next,
        y,
        (best[x as int]->0 + len) as nat,
    )
}

/// Whether `next` records what each of the first `i` short edges makes of `best`.
spec fn round_done(
    edges: Seq<(u32, u32, u64)>,
    lens: Seq<u64>,
    own: u64,
    limit: nat,
    i: int,
    best: Seq<Option<u128>>,
    next: Seq<Option<u128>>,
) -> bool {
    forall|j: int|
        0 <= j < i && lens[j] < own ==> {
            &&& passed_on(best, next, lens[j], limit, (#[trigger] edges[j]).0, edges[j].1)
            &&& passed_on(best, next, lens[j], limit, edges[j].1, edges[j].0)
        }
}

/// Whether `next` records nothing worse than `best`.
spec fn no_worse(best: Seq<Option<u128>>, next: Seq<Option<u128>>) -> bool {
    forall|y: u32|
        y < best.len() && (#[trigger] best[y as int]) is Some ==> at_most(
            next,
            y,
            best[y as int]->0 as nat,
        )
}

proof fn lemma_end_below(edges: Seq<(u32, u32, u64)>, n: nat, from: u32, trail: Seq<int>)
    requires
        ends_below(edges, n),
        from < n,
        is_trail(edges, from, trail),
    ensures
        trail_end(edges, from, trail) < n,
    decreases trail.len(),
{
    if trail.len() > 0 {
        lemma_end_below(edges, n, from, trail.drop_last());
    }
}

/// A trail goes on over one more edge.
proof fn lemma_goes_on(
    edges: Seq<(u32, u32, u64)>,
    lens: Seq<u64>,
    from: u32,
    own: u64,
    limit: nat,
    k: nat,
    x: u32,
    d: nat,
    i: int,
)
    requires
        is_distance(edges, lens, from, own, limit, k, x, d),
        0 <= i < edges.len(),
        touches(edges[i], x),
        lens[i] < own,
        d + lens[i] <= limit,
    ensures
        is_distance(
            edges,
            lens,
            from,
            own,
            limit,
            k + 1,
            far_end(edges[i], x),
            (d + lens[i]) as nat,
        ),
{
    let trail = choose|trail: Seq<int>|
        {
            &&& #[trigger] leads_to(edges, lens, from, own, limit, x, trail)
            &&& trail.len() <= k
            &&& trail_length(lens, trail) == d
        };
    let longer = trail.push(i);
    assert(longer.drop_last() =~= trail);
    assert(leads_to(edges, lens, from, own, limit, far_end(edges[i], x), longer));
}

proof fn lemma_distance_weakens(
    edges: Seq<(u32, u32, u64)>,
    lens: Seq<u64>,
    from: u32,
    own: u64,
    limit: nat,
    k: nat,
    y: u32,
    d: nat,
)
    requires
        is_distance(edges, lens, from, own, limit, k, y, d),
    ensures
        is_distance(edges, lens, from, own, limit, k + 1, y, d),
{
    let trail = choose|trail: Seq<int>|
        {
            &&& #[trigger] leads_to(edges, lens, from, own, limit, y, trail)
            &&& trail.len() <= k
            &&& trail_length(lens, trail) == d
        };
    assert(leads_to(edges, lens, from, own, limit, y, trail));
}

/// One more edge on a trail whose beginning has been dealt with.
proof fn lemma_trail_beaten(
    edges: Seq<(u32, u32, u64)>,
    lens: Seq<u64>,
    from: u32,
    own: u64,
    limit: nat,
    best: Seq<Option<u128>>,
    next: Seq<Option<u128>>,
    y: u32,
    trail: Seq<int>,
)
    requires
        round_done(edges, lens, own, limit, edges.len() as int, best, next),
        leads_to(edges, lens, from, own, limit, y, trail),
        trail.len() > 0,
        at_most(
            best,
            trail_end(edges, from, trail.drop_last()),
            trail_length(lens, trail.drop_last()),
        ),
    ensures
        at_most(next, y, trail_length(lens, trail)),
{
    let x = trail_end(edges, from, trail.drop_last());
    let j = trail.last();
    assert(trail[trail.len() - 1] == j);
    assert(lens[j] < own);
    assert(touches(edges[j], x));
    if edges[j].0 == x {
        assert(passed_on(best, next, lens[j], limit, edges[j].0, edges[j].1));
    } else {
        assert(passed_on(best, next, lens[j], limit, edges[j].1, edges[j].0));
    }
}

proof fn lemma_front_leads(
    edges: Seq<(u32, u32, u64)>,
    lens: Seq<u64>,
    from: u32,
    own: u64,
    limit: nat,
    y: u32,
    trail: Seq<int>,
)
    requires
        leads_to(edges, lens, from, own, limit, y, trail),
        trail.len() > 0,
    ensures
        leads_to(
            edges,
            lens,
            from,
            own,
            limit,
            trail_end(edges, from, trail.drop_last()),
            trail.drop_last(),
        ),
{
    let front = trail.drop_last();
    assert forall|i: int| 0 <= i < front.len() implies lens[#[trigger] front[i]] < own by {
        assert(front[i] == trail[i]);
    }
}

/// What one round adds: trails of one more edge.
proof fn lemma_round(
    edges: Seq<(u32, u32, u64)>,
    lens: Seq<u64>,
    n: nat,
    from: u32,
    own: u64,
    limit: nat,
    k: nat,
    best: Seq<Option<u128>>,
    next: Seq<Option<u128>>,
)
    requires
        ends_below(edges, n),
        from < n,
        best.len() == n,
        all_beaten(edges, lens, from, own, limit, k, best),
        no_worse(best, next),
        round_done(edges, lens, own, limit, edges.len() as int, best, next),
    ensures
        all_beaten(edges, lens, from, own, limit, k + 1, next),
{
    assert forall|y: u32, trail: Seq<int>| #[trigger]
        leads_to(edges, lens, from, own, limit, y, trail) && trail.len() <= k + 1 implies at_most(
        next,
        y,
        trail_length(lens, trail),
    ) by {
        lemma_end_below(edges, n, from, trail);
        if trail.len() <= k {
            assert(at_most(best, y, trail_length(lens, trail)));
            assert(best[y as int] is Some);
        } else {
            lemma_front_leads(edges, lens, from, own, limit, y, trail);
            lemma_trail_beaten(edges, lens, from, own, limit, best, next, y, trail);
        }
    }
}

/// Once a round changes nothing, no trail of any length beats what is recorded.
proof fn lemma_stable(
    edges: Seq<(u32, u32, u64)>,
    lens: Seq<u64>,
    from: u32,
    own: u64,
    limit: nat,
    k: nat,
    best: Seq<Option<u128>>,
    y: u32,
    trail: Seq<int>,
)
    requires
        all_beaten(edges, lens, from, own, limit, k, best),
        round_done(edges, lens, own, limit, edges.len() as int, best, best),
        leads_to(edges, lens, from, own, limit, y, trail),
    ensures
        at_most(best, y, trail_length(lens, trail)),
    decreases trail.len(),
{
    if trail.len() > 0 {
        let front = trail.drop_last();
        lemma_front_leads(edges, lens, from, own, limit, y, trail);
        lemma_stable(
            edges,
            lens,
            from,
            own,
            limit,
            k,
            best,
            trail_end(edges, from, front),
            front,
        );
        lemma_trail_beaten(edges, lens, from, own, limit, best, best, y, trail);
    }
}

/// Lowers the distance of `y` to `d` where that is shorter; says whether it was.
fn lower(next: &mut Vec<Option<u128>>, y: u32, d: u128) -> (changed: bool)
    requires
        y < old(next)@.len(),
    ensures
        final(next)@.len() == old(next)@.len(),
        at_most(final(next)@, y, d as nat),
        no_worse(old(next)@, final(next)@),
        final(next)@ == old(next)@ || final(next)@ == old(next)@.update(y as int, Some(d)),
        !changed ==> final(next)@ == old(next)@,
{
    let shorter = match next[y as usize] {
        Some(known) => d < known,
        None => true,
    };
    if shorter {
        next.set(y as usize, Some(d));
    }
    shorter
}

/// One round: what every edge shorter than `own` makes of the distances `best`.
fn spread(
    edges: &[(u32, u32, u64)],
    lens: &[u64],
    best: &Vec<Option<u128>>,
    own: u64,
    limit: u128,
    from: Ghost<u32>,
    k: Ghost<nat>,
) -> (r: (Vec<Option<u128>>, bool))
    requires
        ends_below(edges@, best@.len()),
        lens@.len() == edges@.len(),
        limit + own <= u128::MAX,
        all_real(edges@, lens@, from@, own, limit as nat, k@, best@),
    ensures
        r.0@.len() == best@.len(),
        no_worse(best@, r.0@),
        round_done(edges@, lens@, own, limit as nat, edges@.len() as int, best@, r.0@),
        all_real(edges@, lens@, from@, own, limit as nat, k@ + 1, r.0@),
        !r.1 ==> r.0@ == best@,
{
    let mut next: Vec<Option<u128>> = Vec::new();
    let mut v: usize = 0;
    while v < best.len()
        invariant
            v <= best@.len(),
            next@ == best@.take(v as int),
        decreases best@.len() - v,
    {
        next.push(best[v]);
        assert(next@ =~= best@.take(v + 1));
        v = v + 1;
    }
    assert(next@ =~= best@);
    proof {
        assert forall|y: u32| y < next@.len() && (#[trigger] next@[y as int]) is Some implies
            is_distance(
            edges@,
            lens@,
            from@,
            own,
            limit as nat,
            k@ + 1,
            y,
            next@[y as int]->0 as nat,
        ) by {
            lemma_distance_weakens(
                edges@,
                lens@,
                from@,
                own,
                limit as nat,
                k@,
                y,
                best@[y as int]->0 as nat,
            );
        }
    }
    let mut changed = false;
    let mut i: usize = 0;
    while i < edges.len()
        invariant
            i <= edges@.len(),
            ends_below(edges@, best@.len()),
            lens@.len() == edges@.len(),
            limit + own <= u128::MAX,
            all_real(edges@, lens@, from@, own, limit as nat, k@, best@),
            next@.len() == best@.len(),
            no_worse(best@, next@),
            round_done(edges@, lens@, own, limit as nat, i as int, best@, next@),
            all_real(edges@, lens@, from@, own, limit as nat, k@ + 1, next@),
            !changed ==> next@ == best@,
        decreases edges@.len() - i,
    {
        let (u, w, _mask) = edges[i];
        assert(edges@[i as int].0 == u && edges@[i as int].1 == w);
        if lens[i] < own {
            let ghost n0 = next@;
            if let Some(d) = best[u as usize] {
                if d <= limit && d + lens[i] as u128 <= limit {
                    proof {
                        lemma_goes_on(
                            edges@,
                            lens@,
                            from@,
                            own,
                            limit as nat,
                            k@,
                            u,
                            d as nat,
                            i as int,
                        );
                    }
                    if lower(&mut next, w, d + lens[i] as u128) {
                        changed = true;
                    }
                }
            }
            let ghost n1 = next@;
            if let Some(d) = best[w as usize] {
                if d <= limit && d + lens[i] as u128 <= limit {
                    proof {
                        lemma_goes_on(
                            edges@,
                            lens@,
                            from@,
                            own,
                            limit as nat,
                            k@,
                            w,
                            d as nat,
                            i as int,
                        );
                    }
                    if lower(&mut next, u, d + lens[i] as u128) {
                        changed = true;
                    }
                }
            }
            proof {
                assert(no_worse(n0, n1));
                assert(no_worse(n1, next@));
                assert forall|y: u32, d: nat| y < best@.len() && at_most(n0, y, d) implies #[trigger]
                    at_most(next@, y, d) by {
                    assert(n0[y as int] is Some);
                    assert(at_most(n1, y, n0[y as int]->0 as nat));
                    assert(n1[y as int] is Some);
                }
                assert forall|j: int| 0 <= j < i + 1 && lens@[j] < own implies {
                    &&& passed_on(
                        best@,
                        next@,
                        lens@[j],
                        limit as nat,
                        (#[trigger] edges@[j]).0,
                        edges@[j].1,
                    )
                    &&& passed_on(
                        best@,
                        next@,
                        lens@[j],
                        limit as nat,
                        edges@[j].1,
                        edges@[j].0,
                    )
                } by {
                    if j < i {
                        assert(passed_on(
                            best@,
                            n0,
                            lens@[j],
                            limit as nat,
                            edges@[j].0,
                            edges@[j].1,
                        ));
                        assert(passed_on(
                            best@,
                            n0,
                            lens@[j],
                            limit as nat,
                            edges@[j].1,
                            edges@[j].0,
                        ));
                    } else {
                        if at_most(n1, w, (best@[u as int]->0 + lens@[j]) as nat) {
                            assert(n1[w as int] is Some);
                        }
                    }
                }
                assert forall|y: u32|
                    y < best@.len() && (#[trigger] best@[y as int]) is Some implies at_most(
                    next@,
                    y,
                    best@[y as int]->0 as nat,
                ) by {
                    assert(at_most(n0, y, best@[y as int]->0 as nat));
                }
                if edges@[i as int].0 == w {
                    assert(u == w);
                }
            }
        }
        i = i + 1;
    }
    (next, changed)
}

/// Whether a trail of edges shorter than edge `e` joins its ends within `limit`
/// and within `max_hops` edges.
fn has_local_path(
    n: usize,
    edges: &[(u32, u32, u64)],
    lens: &[u64],
    e: usize,
    limit: u128,
    max_hops: u32,
) -> (r: bool)
    requires
        ends_below(edges@, n as nat),
        lens@.len() == edges@.len(),
        e < edges@.len(),
        limit + lens@[e as int] <= u128::MAX,
    ensures
        r <==> exists|trail: Seq<int>|
            #[trigger] leads_to(
                edges@,
                lens@,
                edges@[e as int].0,
                lens@[e as int],
                limit as nat,
                edges@[e as int].1,
                trail,
            ) && trail.len() <= max_hops,
{
    let (from, to, _mask) = edges[e];
    let own: u64 = lens[e];
    assert(edges@[e as int].0 == from && edges@[e as int].1 == to);
    let mut best: Vec<Option<u128>> = Vec::new();
    while best.len() < n
        invariant
            best@.len() <= n,
            forall|v: int| 0 <= v < best@.len() ==> #[trigger] best@[v] == None::<u128>,
        decreases n - best@.len(),
    {
        best.push(None);
    }
    best.set(from as usize, Some(0));
    let mut k: u32 = 0;
    let mut stable = false;
    proof {
        let none: Seq<int> = Seq::empty();
        assert(leads_to(edges@, lens@, from, own, limit as nat, from, none));
        assert(is_distance(edges@, lens@, from, own, limit as nat, 0, from, 0));
        assert(all_beaten(edges@, lens@, from, own, limit as nat, 0, best@));
    }
    while k < max_hops && !stable
        invariant
            ends_below(edges@, n as nat),
            lens@.len() == edges@.len(),
            limit + own <= u128::MAX,
            from < n,
            best@.len() == n,
            k <= max_hops,
            all_real(edges@, lens@, from, own, limit as nat, k as nat, best@),
            all_beaten(edges@, lens@, from, own, limit as nat, k as nat, best@),
            stable ==> round_done(
                edges@,
                lens@,
                own,
                limit as nat,
                edges@.len() as int,
                best@,
                best@,
            ),
        decreases max_hops - k,
    {
        let (next, changed) = spread(edges, lens, &best, own, limit, Ghost(from), Ghost(k as nat));
        proof {
            lemma_round(
                edges@,
                lens@,
                n as nat,
                from,
                own,
                limit as nat,
                k as nat,
                best@,
                next@,
            );
        }
        if !changed {
            stable = true;
        }
        best = next;
        k = k + 1;
    }
    let found = best[to as usize].is_some();
    proof {
        let lim = limit as nat;
        if found {
            assert(best@[to as int] is Some);
            assert(is_distance(
                edges@,
                lens@,
                from,
                own,
                lim,
                k as nat,
                to,
                best@[to as int]->0 as nat,
            ));
        }
        if exists|trail: Seq<int>|
            #[trigger] leads_to(edges@, lens@, from, own, lim, to, trail) && trail.len()
                <= max_hops {
            let trail = choose|trail: Seq<int>|
                #[trigger] leads_to(edges@, lens@, from, own, lim, to, trail) && trail.len()
                    <= max_hops;
            if stable {
                lemma_stable(edges@, lens@, from, own, lim, k as nat, best@, to, trail);
            } else {
                assert(at_most(best@, to, trail_length(lens@, trail)));
            }
        }
    }
    found
}

/// Drop express edges that a path of shorter edges already parallels.
///
/// An express train runs on the same tracks as the stopping service beside it,
/// so it crosses the same fare zones, but the straight line between its stops
/// may miss zones the track runs through. Where a path of shorter edges joins the
/// same pair within `num / den` times the direct length and within `max_hops`
/// edges, that path is the local service on the same alignment, and the express
/// edge adds nothing but its bad zone set. Edges with no such parallel are
/// load-bearing and stay. An edge is only ever judged against strictly shorter
/// ones, so no decision depends on another.
///
/// `lens` holds the length of each edge, in any unit; `n` is the number of
/// nodes. Returns the surviving edges and the number dropped.
pub fn drop_shortcut_edges(
    n: usize,
    lens: &[u64],
    edges: &[(u32, u32, u64)],
    num: u64,
    den: u64,
    max_hops: u32,
) -> (r: (Vec<(u32, u32, u64)>, usize))
    requires
        ends_below(edges@, n as nat),
        lens@.len() == edges@.len(),
        den > 0,
    ensures
        r.0@ == survivors(edges@, lens@, num, den, max_hops, edges@.len()),
        r.1 == edges@.len() - r.0@.len(),
{
    let mut kept: Vec<(u32, u32, u64)> = Vec::new();
    let mut dropped: usize = 0;
    let mut e: usize = 0;
    while e < edges.len()
        invariant
            ends_below(edges@, n as nat),
            lens@.len() == edges@.len(),
            den > 0,
            e <= edges@.len(),
            kept@ == survivors(edges@, lens@, num, den, max_hops, e as nat),
            dropped + kept@.len() == e,
        decreases edges@.len() - e,
    {
        let own: u64 = lens[e];
        assert(own * num <= 0xffff_ffff_ffff_ffff * 0xffff_ffff_ffff_ffff) by (nonlinear_arith)
            requires
                own <= 0xffff_ffff_ffff_ffff,
                num <= 0xffff_ffff_ffff_ffff,
        ;
        let product: u128 = own as u128 * num as u128;
        let limit: u128 = product / (den as u128);
        proof {
            assert(limit <= product) by (nonlinear_arith)
                requires
                    limit == product / (den as u128),
                    den > 0,
            ;
            assert forall|trail: Seq<int>| (trail_length(lens@, trail) * den <= own * num <==>
                #[trigger] trail_length(lens@, trail) <= limit) by {
                let d = trail_length(lens@, trail);
                assert(d * den <= product <==> d <= product / (den as u128)) by (nonlinear_arith)
                    requires
                        den > 0,
                ;
            }
        }
        let shortcut = has_local_path(n, edges, lens, e, limit, max_hops);
        proof {
            let from = edges@[e as int].0;
            let to = edges@[e as int].1;
            if shortcut {
                let trail = choose|trail: Seq<int>|
                    #[trigger] leads_to(edges@, lens@, from, own, limit as nat, to, trail)
                        && trail.len() <= max_hops;
                assert(is_local_path(edges@, lens@, e as int, num, den, max_hops, trail));
            }
            if is_shortcut(edges@, lens@, e as int, num, den, max_hops) {
                let trail = choose|trail: Seq<int>|
                    is_local_path(edges@, lens@, e as int, num, den, max_hops, trail);
                assert(leads_to(edges@, lens@, from, own, limit as nat, to, trail));
            }
        }
        if shortcut {
            dropped = dropped + 1;
        } else {
            kept.push(edges[e]);
        }
        e = e + 1;
    }
    (kept, dropped)
}

// ------------------------------------------------------------- what it keeps

/// A trail that only takes edges that survive.
pub open spec fn spares_shortcuts(
    edges: Seq<(u32, u32, u64)>,
    lens: Seq<u64>,
    num: u64,
    den: u64,
    max_hops: u32,
    trail: Seq<int>,
) -> bool {
    forall|i: int|
        0 <= i < trail.len() ==> !is_shortcut(
            edges,
            lens,
            #[trigger] trail[i],
            num,
            den,
            max_hops,
        )
}

proof fn lemma_trails_join(
    edges: Seq<(u32, u32, u64)>,
    from: u32,
    first: Seq<int>,
    second: Seq<int>,
)
    requires
        is_trail(edges, from, first),
        is_trail(edges, trail_end(edges, from, first), second),
    ensures
        is_trail(edges, from, first + second),
        trail_end(edges, from, first + second) == trail_end(
            edges,
            trail_end(edges, from, first),
            second,
        ),
    decreases second.len(),
{
    if second.len() == 0 {
        assert(first + second =~= first);
    } else {
        lemma_trails_join(edges, from, first, second.drop_last());
        assert((first + second).drop_last() =~= first + second.drop_last());
    }
}

proof fn lemma_trail_back(
    edges: Seq<(u32, u32, u64)>,
    lens: Seq<u64>,
    num: u64,
    den: u64,
    max_hops: u32,
    from: u32,
    trail: Seq<int>,
) -> (back: Seq<int>)
    requires
        is_trail(edges, from, trail),
        spares_shortcuts(edges, lens, num, den, max_hops, trail),
    ensures
        is_trail(edges, trail_end(edges, from, trail), back),
        trail_end(edges, trail_end(edges, from, trail), back) == from,
        spares_shortcuts(edges, lens, num, den, max_hops, back),
    decreases trail.len(),
{
    if trail.len() == 0 {
        trail
    } else {
        let front = trail.drop_last();
        assert forall|i: int| 0 <= i < front.len() implies !is_shortcut(
            edges,
            lens,
            #[trigger] front[i],
            num,
            den,
            max_hops,
        ) by {
            assert(front[i] == trail[i]);
        }
        let rest = lemma_trail_back(edges, lens, num, den, max_hops, from, front);
        let i = trail.last();
        assert(trail[trail.len() - 1] == i);
        let y = trail_end(edges, from, trail);
        let one = seq![i];
        let none: Seq<int> = Seq::empty();
        assert(one.drop_last() =~= none);
        assert(is_trail(edges, y, none));
        assert(trail_end(edges, y, none) == y);
        assert(is_trail(edges, y, one));
        assert(trail_end(edges, y, one) == trail_end(edges, from, front));
        lemma_trails_join(edges, y, one, rest);
        let back = one + rest;
        assert forall|j: int| 0 <= j < back.len() implies !is_shortcut(
            edges,
            lens,
            #[trigger] back[j],
            num,
            den,
            max_hops,
        ) by {
            if j > 0 {
                assert(back[j] == rest[j - 1]);
            }
        }
        back
    }
}

/// The ends of any edge are joined by edges that survive.
proof fn lemma_edge_replaced(
    edges: Seq<(u32, u32, u64)>,
    lens: Seq<u64>,
    num: u64,
    den: u64,
    max_hops: u32,
    e: int,
) -> (trail: Seq<int>)
    requires
        0 <= e < edges.len(),
    ensures
        is_trail(edges, edges[e].0, trail),
        trail_end(edges, edges[e].0, trail) == edges[e].1,
        spares_shortcuts(edges, lens, num, den, max_hops, trail),
    decreases lens[e], 1int, 0nat,
{
    if is_shortcut(edges, lens, e, num, den, max_hops) {
        let trail = choose|trail: Seq<int>|
            is_local_path(edges, lens, e, num, den, max_hops, trail);
        lemma_trail_replaced(edges, lens, num, den, max_hops, edges[e].0, lens[e], trail)
    } else {
        let trail = seq![e];
        let none: Seq<int> = Seq::empty();
        assert(trail.drop_last() =~= none);
        assert(is_trail(edges, edges[e].0, none));
        assert(trail_end(edges, edges[e].0, none) == edges[e].0);
        trail
    }
}

proof fn lemma_trail_replaced(
    edges: Seq<(u32, u32, u64)>,
    lens: Seq<u64>,
    num: u64,
    den: u64,
    max_hops: u32,
    from: u32,
    own: u64,
    trail: Seq<int>,
) -> (kept: Seq<int>)
    requires
        is_trail(edges, from, trail),
        all_shorter(lens, own, trail),
    ensures
        is_trail(edges, from, kept),
        trail_end(edges, from, kept) == trail_end(edges, from, trail),
        spares_shortcuts(edges, lens, num, den, max_hops, kept),
    decreases own, 0int, trail.len(),
{
    if trail.len() == 0 {
        trail
    } else {
        let front = trail.drop_last();
        assert forall|i: int| 0 <= i < front.len() implies lens[#[trigger] front[i]] < own by {
            assert(front[i] == trail[i]);
        }
        let first = lemma_trail_replaced(edges, lens, num, den, max_hops, from, own, front);
        let i = trail.last();
        assert(trail[trail.len() - 1] == i);
        let x = trail_end(edges, from, front);
        let whole = lemma_edge_replaced(edges, lens, num, den, max_hops, i);
        let second = if edges[i].0 == x {
            whole
        } else {
            lemma_trail_back(edges, lens, num, den, max_hops, edges[i].0, whole)
        };
        lemma_trails_join(edges, from, first, second);
        let kept = first + second;
        assert forall|j: int| 0 <= j < kept.len() implies !is_shortcut(
            edges,
            lens,
            #[trigger] kept[j],
            num,
            den,
            max_hops,
        ) by {
            if j < first.len() {
                assert(kept[j] == first[j]);
            } else {
                assert(kept[j] == second[j - first.len()]);
            }
        }
        kept
    }
}

proof fn lemma_survivor_kept(
    edges: Seq<(u32, u32, u64)>,
    lens: Seq<u64>,
    num: u64,
    den: u64,
    max_hops: u32,
    k: nat,
    i: int,
)
    requires
        0 <= i < k <= edges.len(),
        !is_shortcut(edges, lens, i, num, den, max_hops),
    ensures
        survivors(edges, lens, num, den, max_hops, k).contains(edges[i]),
    decreases k,
{
    let rest = survivors(edges, lens, num, den, max_hops, (k - 1) as nat);
    let all = survivors(edges, lens, num, den, max_hops, k);
    if i == k - 1 {
        assert(all[all.len() - 1] == edges[i]);
    } else {
        lemma_survivor_kept(edges, lens, num, den, max_hops, (k - 1) as nat, i);
        let j = choose|j: int| 0 <= j < rest.len() && rest[j] == edges[i];
        assert(all[j] == edges[i]);
    }
}

/// The same trail, over the list of surviving edges.
proof fn lemma_trail_among_survivors(
    edges: Seq<(u32, u32, u64)>,
    lens: Seq<u64>,
    num: u64,
    den: u64,
    max_hops: u32,
    from: u32,
    trail: Seq<int>,
) -> (kept: Seq<int>)
    requires
        is_trail(edges, from, trail),
        spares_shortcuts(edges, lens, num, den, max_hops, trail),
    ensures
        ({
            let left = survivors(edges, lens, num, den, max_hops, edges.len());
            is_trail(left, from, kept) && trail_end(left, from, kept) == trail_end(
                edges,
                from,
                trail,
            )
        }),
    decreases trail.len(),
{
    let left = survivors(edges, lens, num, den, max_hops, edges.len());
    if trail.len() == 0 {
        trail
    } else {
        let front = trail.drop_last();
        assert forall|i: int| 0 <= i < front.len() implies !is_shortcut(
            edges,
            lens,
            #[trigger] front[i],
            num,
            den,
            max_hops,
        ) by {
            assert(front[i] == trail[i]);
        }
        let first = lemma_trail_among_survivors(edges, lens, num, den, max_hops, from, front);
        let i = trail.last();
        assert(trail[trail.len() - 1] == i);
        lemma_survivor_kept(edges, lens, num, den, max_hops, edges.len(), i);
        let j = choose|j: int| 0 <= j < left.len() && left[j] == edges[i];
        let kept = first.push(j);
        assert(kept.drop_last() =~= first);
        kept
    }
}

/// Whether some trail leads from `from` to `to`.
pub open spec fn joined(edges: Seq<(u32, u32, u64)>, from: u32, to: u32) -> bool {
    exists|trail: Seq<int>|
        #[trigger] is_trail(edges, from, trail) && trail_end(edges, from, trail) == to
}

/// Dropping shortcuts strands nothing: nodes that the edges join are still
/// joined by the edges that survive.
pub proof fn law_dropping_strands_nothing(
    edges: Seq<(u32, u32, u64)>,
    lens: Seq<u64>,
    num: u64,
    den: u64,
    max_hops: u32,
    from: u32,
    to: u32,
)
    requires
        joined(edges, from, to),
    ensures
        joined(survivors(edges, lens, num, den, max_hops, edges.len()), from, to),
{
    let trail = choose|trail: Seq<int>|
        #[trigger] is_trail(edges, from, trail) && trail_end(edges, from, trail) == to;
    let sparing = lemma_any_trail_replaced(edges, lens, num, den, max_hops, from, trail);
    let kept = lemma_trail_among_survivors(edges, lens, num, den, max_hops, from, sparing);
    let left = survivors(edges, lens, num, den, max_hops, edges.len());
    assert(is_trail(left, from, kept));
}

proof fn lemma_any_trail_replaced(
    edges: Seq<(u32, u32, u64)>,
    lens: Seq<u64>,
    num: u64,
    den: u64,
    max_hops: u32,
    from: u32,
    trail: Seq<int>,
) -> (kept: Seq<int>)
    requires
        is_trail(edges, from, trail),
    ensures
        is_trail(edges, from, kept),
        trail_end(edges, from, kept) == trail_end(edges, from, trail),
        spares_shortcuts(edges, lens, num, den, max_hops, kept),
    decreases trail.len(),
{
    if trail.len() == 0 {
        trail
    } else {
        let front = trail.drop_last();
        let first = lemma_any_trail_replaced(edges, lens, num, den, max_hops, from, front);
        let i = trail.last();
        let x = trail_end(edges, from, front);
        let whole = lemma_edge_replaced(edges, lens, num, den, max_hops, i);
        let second = if edges[i].0 == x {
            whole
        } else {
            lemma_trail_back(edges, lens, num, den, max_hops, edges[i].0, whole)
        };
        lemma_trails_join(edges, from, first, second);
        let kept = first + second;
        assert forall|j: int| 0 <= j < kept.len() implies !is_shortcut(
            edges,
            lens,
            #[trigger] kept[j],
            num,
            den,
            max_hops,
        ) by {
            if j < first.len() {
                assert(kept[j] == first[j]);
            } else {
                assert(kept[j] == second[j - first.len()]);
            }
        }
        kept
    }
}

/// An edge shorter than every other one always survives, unless it joins a node
/// to itself.
pub proof fn law_shortest_edge_survives(
    edges: Seq<(u32, u32, u64)>,
    lens: Seq<u64>,
    num: u64,
    den: u64,
    max_hops: u32,
    e: int,
)
    requires
        0 <= e < edges.len(),
        lens.len() == edges.len(),
        edges[e].0 != edges[e].1,
        forall|i: int| 0 <= i < lens.len() ==> lens[e] <= #[trigger] lens[i],
    ensures
        survivors(edges, lens, num, den, max_hops, edges.len()).contains(edges[e]),
{
    if is_shortcut(edges, lens, e, num, den, max_hops) {
        let trail = choose|trail: Seq<int>|
            is_local_path(edges, lens, e, num, den, max_hops, trail);
        if trail.len() > 0 {
            assert(lens[trail[trail.len() - 1]] < lens[e]);
        }
    }
    lemma_survivor_kept(edges, lens, num, den, max_hops, edges.len(), e);
}

// ------------------------------------------------- trails written node by node

/// A trail that is written out node by node, with the distance covered up to each.
proof fn lemma_written_trail(
    edges: Seq<(u32, u32, u64)>,
    lens: Seq<u64>,
    nodes: Seq<u32>,
    trail: Seq<int>,
    far: Seq<nat>,
    k: int,
)
    requires
        0 <= k <= trail.len(),
        nodes.len() == trail.len() + 1,
        far.len() == trail.len() + 1,
        far[0] == 0,
        forall|i: int|
            0 <= i < trail.len() ==> {
                let t = #[trigger] trail[i];
                &&& 0 <= t < edges.len()
                &&& far[i + 1] == far[i] + lens[t]
                &&& (edges[t].0 == nodes[i] && edges[t].1 == nodes[i + 1]) || (edges[t].1
                    == nodes[i] && edges[t].0 == nodes[i + 1])
            },
    ensures
        is_trail(edges, nodes[0], trail.take(k)),
        trail_end(edges, nodes[0], trail.take(k)) == nodes[k],
        trail_length(lens, trail.take(k)) == far[k],
    decreases k,
{
    if k > 0 {
        lemma_written_trail(edges, lens, nodes, trail, far, k - 1);
        assert(trail.take(k).drop_last() =~= trail.take(k - 1));
        assert(trail.take(k).last() == trail[k - 1]);
    } else {
        assert(trail.take(k) =~= Seq::empty());
    }
}

/// The beginning of a trail is a trail, and its next edge leads on from there.
proof fn lemma_trail_step(
    edges: Seq<(u32, u32, u64)>,
    lens: Seq<u64>,
    from: u32,
    trail: Seq<int>,
    k: int,
)
    requires
        is_trail(edges, from, trail),
        0 <= k < trail.len(),
    ensures
        is_trail(edges, from, trail.take(k)),
        0 <= trail[k] < edges.len(),
        touches(edges[trail[k]], trail_end(edges, from, trail.take(k))),
        trail_end(edges, from, trail.take(k + 1)) == far_end(
            edges[trail[k]],
            trail_end(edges, from, trail.take(k)),
        ),
        trail_length(lens, trail.take(k + 1)) == trail_length(lens, trail.take(k)) + lens[trail[k]],
    decreases trail.len(),
{
    assert(trail.take(k + 1).drop_last() =~= trail.take(k));
    if k == trail.len() - 1 {
        assert(trail.take(k) =~= trail.drop_last());
        assert(trail.take(k + 1) =~= trail);
    } else {
        let front = trail.drop_last();
        lemma_trail_step(edges, lens, from, front, k);
        assert(front.take(k) =~= trail.take(k));
        assert(front.take(k + 1) =~= trail.take(k + 1));
    }
}

/// What becomes of every edge. The survivors are edges in their old order. An edge is
/// dropped exactly when a walk joins its two ends over edges that are each shorter
/// than it, in at most `max_hops` of them, whose lengths add up to at most
/// `num / den` times its own. A walk is written out: `nodes` are the nodes it calls
/// at, `trail` the edges it takes between them, and `far` how far it has come.
pub proof fn law_dropped_means_walked_locally(
    edges: Seq<(u32, u32, u64)>,
    lens: Seq<u64>,
    num: u64,
    den: u64,
    max_hops: u32,
    k: nat,
) -> (places: Seq<int>)
    requires
        k <= edges.len(),
    ensures
        forall|i: int| 0 <= i < places.len() ==> 0 <= #[trigger] places[i] < k,
        forall|i: int, j: int|
            #![trigger places[i], places[j]]
            0 <= i < j < places.len() ==> places[i] < places[j],
        survivors(edges, lens, num, den, max_hops, k) == Seq::new(
            places.len(),
            |i: int| edges[places[i]],
        ),
        forall|e: int, nodes: Seq<u32>, trail: Seq<int>, far: Seq<nat>|
            #![trigger edges[e], nodes.len(), trail.len(), far.len()]
            {
                &&& 0 <= e < k
                &&& max_hops >= trail.len()
                &&& nodes.len() == trail.len() + 1
                &&& far.len() == trail.len() + 1
                &&& nodes[0] == edges[e].0
                &&& nodes[trail.len() as int] == edges[e].1
                &&& far[0] == 0
                &&& far[trail.len() as int] * den <= lens[e] * num
                &&& forall|i: int|
                    0 <= i < trail.len() ==> {
                        let t = #[trigger] trail[i];
                        &&& 0 <= t < edges.len()
                        &&& lens[t] < lens[e]
                        &&& far[i + 1] == far[i] + lens[t]
                        &&& (edges[t].0 == nodes[i] && edges[t].1 == nodes[i + 1]) || (edges[t].1
                            == nodes[i] && edges[t].0 == nodes[i + 1])
                    }
            } ==> !places.contains(e),
        forall|e: int|
            0 <= e < k && !#[trigger] places.contains(e) ==> exists|
                nodes: Seq<u32>,
                trail: Seq<int>,
                far: Seq<nat>,
            |
                #![trigger nodes.len(), trail.len(), far.len()]
                {
                    &&& max_hops >= trail.len()
                    &&& nodes.len() == trail.len() + 1
                    &&& far.len() == trail.len() + 1
                    &&& nodes[0] == edges[e].0
                    &&& nodes[trail.len() as int] == edges[e].1
                    &&& far[0] == 0
                    &&& far[trail.len() as int] * den <= lens[e] * num
                    &&& forall|i: int|
                        0 <= i < trail.len() ==> {
                            let t = #[trigger] trail[i];
                            &&& 0 <= t < edges.len()
                            &&& lens[t] < lens[e]
                            &&& far[i + 1] == far[i] + lens[t]
                            &&& (edges[t].0 == nodes[i] && edges[t].1 == nodes[i + 1]) || (
                            edges[t].1 == nodes[i] && edges[t].0 == nodes[i + 1])
                        }
                },
{
    let places = lemma_survivor_places(edges, lens, num, den, max_hops, k);
    assert forall|e: int, nodes: Seq<u32>, trail: Seq<int>, far: Seq<nat>|
        #![trigger edges[e], nodes.len(), trail.len(), far.len()]
        {
            &&& 0 <= e < k
            &&& max_hops >= trail.len()
            &&& nodes.len() == trail.len() + 1
            &&& far.len() == trail.len() + 1
            &&& nodes[0] == edges[e].0
            &&& nodes[trail.len() as int] == edges[e].1
            &&& far[0] == 0
            &&& far[trail.len() as int] * den <= lens[e] * num
            &&& forall|i: int|
                0 <= i < trail.len() ==> {
                    let t = #[trigger] trail[i];
                    &&& 0 <= t < edges.len()
                    &&& lens[t] < lens[e]
                    &&& far[i + 1] == far[i] + lens[t]
                    &&& (edges[t].0 == nodes[i] && edges[t].1 == nodes[i + 1]) || (edges[t].1
                        == nodes[i] && edges[t].0 == nodes[i + 1])
                }
        } implies !places.contains(e) by {
        lemma_written_trail(edges, lens, nodes, trail, far, trail.len() as int);
        assert(trail.take(trail.len() as int) =~= trail);
        assert(is_local_path(edges, lens, e, num, den, max_hops, trail));
    }
    assert forall|e: int| 0 <= e < k && !#[trigger] places.contains(e) implies exists|
        nodes: Seq<u32>,
        trail: Seq<int>,
        far: Seq<nat>,
    |
        #![trigger nodes.len(), trail.len(), far.len()]
        {
            &&& max_hops >= trail.len()
            &&& nodes.len() == trail.len() + 1
            &&& far.len() == trail.len() + 1
            &&& nodes[0] == edges[e].0
            &&& nodes[trail.len() as int] == edges[e].1
            &&& far[0] == 0
            &&& far[trail.len() as int] * den <= lens[e] * num
            &&& forall|i: int|
                0 <= i < trail.len() ==> {
                    let t = #[trigger] trail[i];
                    &&& 0 <= t < edges.len()
                    &&& lens[t] < lens[e]
                    &&& far[i + 1] == far[i] + lens[t]
                    &&& (edges[t].0 == nodes[i] && edges[t].1 == nodes[i + 1]) || (edges[t].1
                        == nodes[i] && edges[t].0 == nodes[i + 1])
                }
        } by {
        assert(is_shortcut(edges, lens, e, num, den, max_hops));
        let trail = choose|trail: Seq<int>|
            is_local_path(edges, lens, e, num, den, max_hops, trail);
        let from = edges[e].0;
        let nodes = Seq::new(trail.len() + 1, |i: int| trail_end(edges, from, trail.take(i)));
        let far = Seq::new(trail.len() + 1, |i: int| trail_length(lens, trail.take(i)));
        assert(trail.take(0) =~= Seq::empty());
        assert(trail.take(trail.len() as int) =~= trail);
        assert forall|i: int| 0 <= i < trail.len() implies {
            let t = #[trigger] trail[i];
            &&& 0 <= t < edges.len()
            &&& lens[t] < lens[e]
            &&& far[i + 1] == far[i] + lens[t]
            &&& (edges[t].0 == nodes[i] && edges[t].1 == nodes[i + 1]) || (edges[t].1 == nodes[i]
                && edges[t].0 == nodes[i + 1])
        } by {
            lemma_trail_step(edges, lens, from, trail, i);
        }
        assert(nodes.len() == trail.len() + 1 && far.len() == trail.len() + 1);
    }
    places
}

/// Where the survivors stand among the edges.
proof fn lemma_survivor_places(
    edges: Seq<(u32, u32, u64)>,
    lens: Seq<u64>,
    num: u64,
    den: u64,
    max_hops: u32,
    k: nat,
) -> (places: Seq<int>)
    requires
        k <= edges.len(),
    ensures
        forall|i: int| 0 <= i < places.len() ==> 0 <= #[trigger] places[i] < k,
        forall|i: int, j: int|
            #![trigger places[i], places[j]]
            0 <= i < j < places.len() ==> places[i] < places[j],
        survivors(edges, lens, num, den, max_hops, k) == Seq::new(
            places.len(),
            |i: int| edges[places[i]],
        ),
        forall|e: int|
            0 <= e < k ==> (#[trigger] places.contains(e) <==> !is_shortcut(
                edges,
                lens,
                e,
                num,
                den,
                max_hops,
            )),
    decreases k,
{
    if k == 0 {
        assert(survivors(edges, lens, num, den, max_hops, 0) =~= Seq::new(
            0,
            |i: int| edges[Seq::<int>::empty()[i]],
        ));
        Seq::empty()
    } else {
        let rest = lemma_survivor_places(edges, lens, num, den, max_hops, (k - 1) as nat);
        let last = k - 1;
        let places = if is_shortcut(edges, lens, last, num, den, max_hops) {
            rest
        } else {
            rest.push(last)
        };
        assert(survivors(edges, lens, num, den, max_hops, k) =~= Seq::new(
            places.len(),
            |i: int| edges[places[i]],
        ));
        assert forall|e: int| 0 <= e < k implies (#[trigger] places.contains(e) <==> !is_shortcut(
            edges,
            lens,
            e,
            num,
            den,
            max_hops,
        )) by {
            if e < last {
                assert(rest.contains(e) <==> !is_shortcut(edges, lens, e, num, den, max_hops));
                if rest.contains(e) {
                    let i = choose|i: int| 0 <= i < rest.len() && rest[i] == e;
                    assert(places[i] == e);
                }
                if places.contains(e) {
                    let i = choose|i: int| 0 <= i < places.len() && places[i] == e;
                    assert(rest[i] == e);
                }
            } else if places.len() > rest.len() {
                assert(places[rest.len() as int] == e);
            }
        }
        places
    }
}

/// The detour that may stand in for an edge is at most 60 % longer than it, and takes no
/// more than a dozen hops.
pub proof fn law_detours_stay_local(detour: nat, own: nat)
    ensures
        detour * DETOUR_DEN <= own * DETOUR_NUM <==> 10 * detour <= 16 * own,
        MAX_HOPS == 12,
{
}

} // verus!
