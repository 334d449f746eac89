//! The cheapest network that joins a set of cities to a player's network:
//! shortest routes from weighted starting points on an adjacency graph, and
//! the exact subset recurrence over the target cities built on them.

use vstd::prelude::*;

use crate::map::{city_links, id_views, GameMap};
use crate::text::{lemma_lex_lt_asymmetric, lemma_lex_lt_irreflexive, lemma_lex_lt_total, lemma_lex_lt_transitive, lex_lt, str_eq, str_lt};

verus! {

/// Stands for "no value": every real cost of the search stays below it.
pub const INF: u32 = 1073741823;

/// An adjacency graph: `g[u]` lists `(neighbour, cost)` for the connections
/// leaving node `u`.
pub type Graph = Seq<Vec<(usize, u32)>>;

/// One step along a graph: leave node `h.0` along its `h.1`-th connection.
pub type Step = (int, int);

pub open spec fn graph_ok(g: Graph) -> bool {
    &&& g.len() <= usize::MAX
    &&& forall|u: int, k: int| 0 <= u < g.len() && 0 <= k < g[u]@.len() ==> ((#[trigger] g[u]@[k]).0 as int) < g.len()
}

pub open spec fn step_ok(g: Graph, h: Step) -> bool {
    0 <= h.0 < g.len() && 0 <= h.1 < g[h.0]@.len()
}

pub open spec fn step_to(g: Graph, h: Step) -> int {
    g[h.0]@[h.1].0 as int
}

pub open spec fn step_cost(g: Graph, h: Step) -> nat {
    g[h.0]@[h.1].1 as nat
}

/// `steps` is a path of connections starting at node `start`.
pub open spec fn is_path(g: Graph, start: int, steps: Seq<Step>) -> bool {
    &&& forall|i: int| 0 <= i < steps.len() ==> step_ok(g, #[trigger] steps[i])
    &&& steps.len() > 0 ==> steps[0].0 == start
    &&& forall|i: int| 0 <= i < steps.len() - 1 ==> step_to(g, #[trigger] steps[i]) == steps[i + 1].0
}

pub open spec fn path_end(g: Graph, start: int, steps: Seq<Step>) -> int {
    if steps.len() == 0 { start } else { step_to(g, steps.last()) }
}

pub open spec fn path_cost(g: Graph, steps: Seq<Step>) -> nat
    decreases steps.len(),
{
    if steps.len() == 0 {
        0
    } else {
        path_cost(g, steps.drop_last()) + step_cost(g, steps.last())
    }
}

/// `steps` leads to `v` from a node `s` that has a starting cost in `pot`.
pub open spec fn reaches(g: Graph, pot: Seq<u32>, v: int, s: int, steps: Seq<Step>) -> bool {
    &&& 0 <= s < pot.len()
    &&& pot[s] < INF
    &&& is_path(g, s, steps)
    &&& path_end(g, s, steps) == v
}

/// What reaching `v` that way costs: the start's cost plus the path's.
pub open spec fn reach_cost(g: Graph, pot: Seq<u32>, s: int, steps: Seq<Step>) -> nat {
    (pot[s] + path_cost(g, steps)) as nat
}

/// `out[v]` is the least cost of reaching `v` from the starting costs `pot`,
/// or `INF` when every way costs `INF` or more (or there is none).
pub open spec fn closure_ok(g: Graph, pot: Seq<u32>, out: Seq<u32>) -> bool {
    &&& out.len() == g.len()
    &&& forall|v: int| 0 <= v < g.len() ==> {
        &&& #[trigger] out[v] <= INF
        &&& out[v] < INF ==> exists|s: int, steps: Seq<Step>| #[trigger] reaches(g, pot, v, s, steps)
            && reach_cost(g, pot, s, steps) == out[v]
        &&& forall|s: int, steps: Seq<Step>| #[trigger] reaches(g, pot, v, s, steps) ==> out[v] <= reach_cost(g, pot, s, steps)
    }
}

/// How the least costs were found: a node either kept its starting cost
/// or was reached over a connection from a node settled before it.
pub open spec fn parents_ok(g: Graph, pot: Seq<u32>, out: Seq<u32>, parent: Seq<Option<usize>>, time: Seq<nat>) -> bool {
    &&& parent.len() == g.len()
    &&& time.len() == g.len()
    &&& forall|v: int| 0 <= v < g.len() ==> match #[trigger] parent[v] {
        None => out[v] == pot[v],
        Some(u) => {
            &&& (u as int) < g.len()
            &&& out[v] < INF
            &&& time[u as int] < time[v]
            &&& exists|k: int| 0 <= k < g[u as int]@.len() && (#[trigger] g[u as int]@[k]).0 == v
                && out[v] == out[u as int] + g[u as int]@[k].1
        },
    }
}

proof fn lemma_path_prefix(g: Graph, start: int, steps: Seq<Step>)
    requires
        is_path(g, start, steps),
        steps.len() > 0,
    ensures
        is_path(g, start, steps.drop_last()),
        path_end(g, start, steps.drop_last()) == steps.last().0,
        path_cost(g, steps) == path_cost(g, steps.drop_last()) + step_cost(g, steps.last()),
{
    let p = steps.drop_last();
    assert forall|i: int| 0 <= i < p.len() implies step_ok(g, #[trigger] p[i]) by {
        assert(p[i] == steps[i]);
    }
    assert forall|i: int| 0 <= i < p.len() - 1 implies step_to(g, #[trigger] p[i]) == p[i + 1].0 by {
        assert(p[i] == steps[i]);
    }
    if p.len() > 0 {
        assert(step_to(g, steps[steps.len() - 2]) == steps[steps.len() - 1].0);
    }
}

proof fn lemma_path_extend(g: Graph, start: int, steps: Seq<Step>, h: Step)
    requires
        is_path(g, start, steps),
        step_ok(g, h),
        h.0 == path_end(g, start, steps),
    ensures
        is_path(g, start, steps.push(h)),
        path_end(g, start, steps.push(h)) == step_to(g, h),
        path_cost(g, steps.push(h)) == path_cost(g, steps) + step_cost(g, h),
{
    let q = steps.push(h);
    assert(q.drop_last() == steps);
    assert forall|i: int| 0 <= i < q.len() implies step_ok(g, #[trigger] q[i]) by {
        if i < steps.len() {
            assert(q[i] == steps[i]);
        }
    }
    assert forall|i: int| 0 <= i < q.len() - 1 implies step_to(g, #[trigger] q[i]) == q[i + 1].0 by {
        assert(q[i] == steps[i]);
        if i < steps.len() - 1 {
            assert(q[i + 1] == steps[i + 1]);
        }
    }
}

// ---------------------------------------------------------------------------
// The search invariant
// ---------------------------------------------------------------------------

/// Every tentative cost below `INF` is the cost of a real way there.
#[verifier::opaque]
pub open spec fn witnessed(g: Graph, pot: Seq<u32>, dist: Seq<u32>) -> bool {
    forall|v: int| 0 <= v < dist.len() && #[trigger] dist[v] < INF ==>
        exists|s: int, steps: Seq<Step>| #[trigger] reaches(g, pot, v, s, steps) && reach_cost(g, pot, s, steps) == dist[v]
}

/// Settled costs are least.
#[verifier::opaque]
pub open spec fn settled_least(g: Graph, pot: Seq<u32>, dist: Seq<u32>, settled: Seq<bool>) -> bool {
    forall|v: int| 0 <= v < settled.len() && #[trigger] settled[v] ==> {
        &&& dist[v] < INF
        &&& forall|s: int, steps: Seq<Step>| #[trigger] reaches(g, pot, v, s, steps) ==> dist[v] <= reach_cost(g, pot, s, steps)
    }
}

/// Connections from settled nodes to unsettled ones are relaxed, except the
/// connections `k_from..` of node `skip`.
#[verifier::opaque]
pub open spec fn relaxed(g: Graph, dist: Seq<u32>, settled: Seq<bool>, skip: int, k_from: int) -> bool {
    forall|u: int, k: int| 0 <= u < settled.len() && settled[u] && 0 <= k < g[u]@.len() && (u != skip || k < k_from)
        && !settled[(#[trigger] g[u]@[k]).0 as int] ==> dist[g[u]@[k].0 as int] <= dist[u] + g[u]@[k].1
}

/// Settled nodes cost no more than unsettled ones.
#[verifier::opaque]
pub open spec fn settled_first(dist: Seq<u32>, settled: Seq<bool>) -> bool {
    forall|a: int, b: int| 0 <= a < settled.len() && 0 <= b < settled.len() && #[trigger] settled[a] && !#[trigger] settled[b]
        ==> dist[a] <= dist[b]
}

/// Starting costs bound the tentative ones.
#[verifier::opaque]
pub open spec fn below_start(pot: Seq<u32>, dist: Seq<u32>) -> bool {
    forall|v: int| 0 <= v < dist.len() ==> #[trigger] dist[v] <= pot[v]
}

/// Parents lead back over real connections to earlier settled nodes.
#[verifier::opaque]
pub open spec fn parents_sound(g: Graph, pot: Seq<u32>, dist: Seq<u32>, settled: Seq<bool>, parent: Seq<Option<usize>>, time: Seq<nat>, t: nat) -> bool {
    forall|v: int| 0 <= v < parent.len() ==> match #[trigger] parent[v] {
        None => dist[v] == pot[v],
        Some(u) => {
            &&& (u as int) < parent.len()
            &&& dist[v] < INF
            &&& settled[u as int]
            &&& time[u as int] < (if settled[v] { time[v] } else { t })
            &&& exists|k: int| 0 <= k < g[u as int]@.len() && (#[trigger] g[u as int]@[k]).0 == v
                && dist[v] == dist[u as int] + g[u as int]@[k].1
        },
    }
}

/// Settled nodes were settled before step `t`.
#[verifier::opaque]
pub open spec fn times_ok(settled: Seq<bool>, time: Seq<nat>, t: nat) -> bool {
    forall|v: int| 0 <= v < settled.len() && #[trigger] settled[v] ==> time[v] < t
}

pub open spec fn search_ok(g: Graph, pot: Seq<u32>, dist: Seq<u32>, settled: Seq<bool>, parent: Seq<Option<usize>>, time: Seq<nat>, t: nat) -> bool {
    let n = g.len();
    &&& pot.len() == n
    &&& dist.len() == n
    &&& settled.len() == n
    &&& parent.len() == n
    &&& time.len() == n
    &&& forall|v: int| 0 <= v < n ==> #[trigger] dist[v] <= INF
    &&& witnessed(g, pot, dist)
    &&& settled_least(g, pot, dist, settled)
    &&& relaxed(g, dist, settled, -1, 0)
    &&& settled_first(dist, settled)
    &&& below_start(pot, dist)
    &&& parents_sound(g, pot, dist, settled, parent, time, t)
    &&& times_ok(settled, time, t)
}

/// Along any way to an unsettled node there is an unsettled node whose
/// tentative cost is at most the way's cost.
proof fn lemma_unsettled_on_way(
    g: Graph,
    pot: Seq<u32>,
    dist: Seq<u32>,
    settled: Seq<bool>,
    parent: Seq<Option<usize>>,
    time: Seq<nat>,
    t: nat,
    s: int,
    steps: Seq<Step>,
) -> (w: int)
    requires
        graph_ok(g),
        search_ok(g, pot, dist, settled, parent, time, t),
        reaches(g, pot, path_end(g, s, steps), s, steps),
        !settled[path_end(g, s, steps)],
    ensures
        0 <= w < g.len(),
        !settled[w],
        dist[w] <= reach_cost(g, pot, s, steps),
    decreases steps.len(),
{
    reveal(witnessed);
    reveal(settled_least);
    reveal(relaxed);
    reveal(below_start);
    if steps.len() == 0 {
        s
    } else {
        let prefix = steps.drop_last();
        let last = steps.last();
        lemma_path_prefix(g, s, steps);
        let u = last.0;
        assert(step_ok(g, steps[steps.len() - 1]));
        assert(reaches(g, pot, u, s, prefix));
        if !settled[u] {
            lemma_unsettled_on_way(g, pot, dist, settled, parent, time, t, s, prefix)
        } else {
            let w = path_end(g, s, steps);
            assert(g[u]@[last.1] == g[last.0]@[last.1]);
            assert(dist[w] <= dist[u] + g[u]@[last.1].1);
            w
        }
    }
}

proof fn lemma_extend_way(g: Graph, pot: Seq<u32>, dist: Seq<u32>, v: int, k: int) -> (r: (int, Seq<Step>))
    requires
        graph_ok(g),
        dist.len() == g.len(),
        0 <= v < g.len(),
        0 <= k < g[v]@.len(),
        dist[v] < INF,
        witnessed(g, pot, dist),
    ensures
        reaches(g, pot, g[v]@[k].0 as int, r.0, r.1),
        reach_cost(g, pot, r.0, r.1) == dist[v] + g[v]@[k].1,
{
    reveal(witnessed);
    let (s, steps) = choose|s: int, steps: Seq<Step>| #[trigger] reaches(g, pot, v, s, steps) && reach_cost(g, pot, s, steps) == dist[v];
    let h: Step = (v, k);
    lemma_path_extend(g, s, steps, h);
    (s, steps.push(h))
}

/// Number of settled nodes.
pub open spec fn settled_count(s: Seq<bool>) -> nat
    decreases s.len(),
{
    if s.len() == 0 {
        0
    } else {
        settled_count(s.drop_last()) + if s.last() { 1nat } else { 0nat }
    }
}

proof fn lemma_settled_count_update(s: Seq<bool>, i: int)
    requires
        0 <= i < s.len(),
        !s[i],
    ensures
        settled_count(s.update(i, true)) == settled_count(s) + 1,
    decreases s.len(),
{
    let t = s.update(i, true);
    if i == s.len() - 1 {
        assert(t.drop_last() == s.drop_last());
    } else {
        assert(t.drop_last() == s.drop_last().update(i, true));
        lemma_settled_count_update(s.drop_last(), i);
    }
}

proof fn lemma_settled_count_bound(s: Seq<bool>, i: int)
    ensures
        settled_count(s) <= s.len(),
        0 <= i < s.len() && !s[i] ==> settled_count(s) < s.len(),
    decreases s.len(),
{
    if s.len() > 0 {
        lemma_settled_count_bound(s.drop_last(), i);
    }
}

/// Settling the cheapest unsettled node keeps the invariant, with its own
/// connections still to relax.
proof fn lemma_settle(
    g: Graph,
    pot: Seq<u32>,
    dist: Seq<u32>,
    settled: Seq<bool>,
    parent: Seq<Option<usize>>,
    time: Seq<nat>,
    t: nat,
    u: int,
)
    requires
        graph_ok(g),
        search_ok(g, pot, dist, settled, parent, time, t),
        0 <= u < g.len(),
        !settled[u],
        dist[u] < INF,
        forall|w: int| 0 <= w < g.len() && !(#[trigger] settled[w]) ==> dist[u] <= dist[w],
    ensures
        ({
            let settled2 = settled.update(u, true);
            let time2 = time.update(u, t);
            &&& witnessed(g, pot, dist)
            &&& settled_least(g, pot, dist, settled2)
            &&& relaxed(g, dist, settled2, u, 0)
            &&& settled_first(dist, settled2)
            &&& below_start(pot, dist)
            &&& parents_sound(g, pot, dist, settled2, parent, time2, t + 1)
            &&& times_ok(settled2, time2, t + 1)
        }),
{
    reveal(witnessed);
    reveal(settled_least);
    reveal(relaxed);
    reveal(settled_first);
    reveal(below_start);
    reveal(parents_sound);
    reveal(times_ok);
    let settled2 = settled.update(u, true);
    let time2 = time.update(u, t);
    assert forall|s: int, steps: Seq<Step>| #[trigger] reaches(g, pot, u, s, steps) implies dist[u] <= reach_cost(g, pot, s, steps) by {
        let w = lemma_unsettled_on_way(g, pot, dist, settled, parent, time, t, s, steps);
    }
    assert forall|v: int| 0 <= v < settled2.len() && #[trigger] settled2[v] implies {
        &&& dist[v] < INF
        &&& forall|s: int, steps: Seq<Step>| #[trigger] reaches(g, pot, v, s, steps) ==> dist[v] <= reach_cost(g, pot, s, steps)
    } by {
        if v != u {
            assert(settled[v]);
        }
    }
    assert forall|a: int, b: int| 0 <= a < settled2.len() && 0 <= b < settled2.len() && #[trigger] settled2[a] && !#[trigger] settled2[b]
        implies dist[a] <= dist[b] by {
        if a != u {
            assert(settled[a] && !settled[b]);
        }
    }
    assert forall|x: int, k: int| 0 <= x < settled2.len() && settled2[x] && 0 <= k < g[x]@.len() && (x != u || k < 0)
        && !settled2[(#[trigger] g[x]@[k]).0 as int] implies dist[g[x]@[k].0 as int] <= dist[x] + g[x]@[k].1 by {
        assert(settled[x]);
    }
    assert forall|v: int| 0 <= v < parent.len() implies match #[trigger] parent[v] {
        None => dist[v] == pot[v],
        Some(p) => {
            &&& (p as int) < parent.len()
            &&& dist[v] < INF
            &&& settled2[p as int]
            &&& time2[p as int] < (if settled2[v] { time2[v] } else { t + 1 })
            &&& exists|k: int| 0 <= k < g[p as int]@.len() && (#[trigger] g[p as int]@[k]).0 == v
                && dist[v] == dist[p as int] + g[p as int]@[k].1
        },
    } by {
        match parent[v] {
            None => {},
            Some(p) => {
                assert(settled[p as int]);
                assert(p as int != u);
                if v != u && settled[v] {
                    assert(time2[v] == time[v]);
                }
            },
        }
    }
}

/// The unsettled node of least cost below `INF` (the one whose city id
/// sorts first among equals), if any.
fn cheapest_unsettled(map: &GameMap, dist: &Vec<u32>, settled: &Vec<bool>) -> (r: Option<usize>)
    requires
        dist@.len() == settled@.len(),
        dist@.len() == map.cities@.len(),
    ensures
        match r {
            None => forall|w: int| 0 <= w < dist@.len() ==> #[trigger] settled@[w] || dist@[w] >= INF,
            Some(b) => {
                &&& (b as int) < dist@.len()
                &&& !settled@[b as int]
                &&& dist@[b as int] < INF
                &&& forall|w: int| 0 <= w < dist@.len() && !(#[trigger] settled@[w]) ==> dist@[b as int] <= dist@[w]
            },
        },
{
    let n = dist.len();
    let mut best: Option<usize> = None;
    let mut v: usize = 0;
    while v < n
        invariant
            dist@.len() == n,
            settled@.len() == n,
            map.cities@.len() == n,
            v <= n,
            match best {
                None => forall|w: int| 0 <= w < v ==> #[trigger] settled@[w] || dist@[w] >= INF,
                Some(b) => {
                    &&& (b as int) < v
                    &&& !settled@[b as int]
                    &&& dist@[b as int] < INF
                    &&& forall|w: int| 0 <= w < v && !(#[trigger] settled@[w]) ==> dist@[b as int] <= dist@[w]
                },
            },
        decreases n - v,
    {
        if !settled[v] && dist[v] < INF {
            let better = match best {
                None => true,
                Some(b) => dist[v] < dist[b] || (dist[v] == dist[b]
                    && str_lt(map.cities[v].id.as_str(), map.cities[b].id.as_str())),
            };
            if better {
                best = Some(v);
            }
        }
        v = v + 1;
    }
    best
}

fn start_search(pot: &Vec<u32>) -> (r: (Vec<u32>, Vec<bool>, Vec<Option<usize>>))
    ensures
        r.0@ == pot@,
        r.1@.len() == pot@.len(),
        r.2@.len() == pot@.len(),
        forall|v: int| 0 <= v < pot@.len() ==> !(#[trigger] r.1@[v]),
        forall|v: int| 0 <= v < pot@.len() ==> (#[trigger] r.2@[v]) is None,
        settled_count(r.1@) == 0,
{
    let n = pot.len();
    let mut dist: Vec<u32> = Vec::new();
    let mut settled: Vec<bool> = Vec::new();
    let mut parent: Vec<Option<usize>> = Vec::new();
    let mut i: usize = 0;
    while i < n
        invariant
            pot@.len() == n,
            i <= n,
            dist@ == pot@.subrange(0, i as int),
            settled@.len() == i,
            parent@.len() == i,
            forall|v: int| 0 <= v < i ==> !(#[trigger] settled@[v]) && parent@[v] is None,
            settled_count(settled@) == 0,
        decreases n - i,
    {
        let ghost before = settled@;
        let ghost before_parent = parent@;
        dist.push(pot[i]);
        settled.push(false);
        parent.push(None);
        i = i + 1;
        proof {
            assert(settled@.drop_last() =~= before);
            assert forall|v: int| 0 <= v < i implies !(#[trigger] settled@[v]) && parent@[v] is None by {
                if v < i - 1 {
                    assert(settled@[v] == before[v]);
                    assert(parent@[v] == before_parent[v]);
                }
            }
        }
    }
    assert(dist@ =~= pot@);
    assert forall|v: int| 0 <= v < pot@.len() implies (#[trigger] parent@[v]) is None by {
        assert(!settled@[v]);
    }
    (dist, settled, parent)
}

proof fn lemma_search_starts(g: Graph, pot: Seq<u32>, settled: Seq<bool>, parent: Seq<Option<usize>>, time: Seq<nat>)
    requires
        pot.len() == g.len(),
        settled.len() == g.len(),
        parent.len() == g.len(),
        time.len() == g.len(),
        forall|v: int| 0 <= v < pot.len() ==> #[trigger] pot[v] <= INF,
        forall|v: int| 0 <= v < pot.len() ==> !(#[trigger] settled[v]),
        forall|v: int| 0 <= v < pot.len() ==> (#[trigger] parent[v]) is None,
    ensures
        search_ok(g, pot, pot, settled, parent, time, 0),
{
    reveal(witnessed);
    reveal(settled_least);
    reveal(relaxed);
    reveal(settled_first);
    reveal(below_start);
    reveal(parents_sound);
    reveal(times_ok);
    assert forall|v: int| 0 <= v < pot.len() && #[trigger] pot[v] < INF implies exists|s: int, steps: Seq<Step>|
        #[trigger] reaches(g, pot, v, s, steps) && reach_cost(g, pot, s, steps) == pot[v] by {
        let e: Seq<Step> = seq![];
        assert(reaches(g, pot, v, v, e));
    }
    assert forall|v: int| 0 <= v < parent.len() implies match #[trigger] parent[v] {
        None => pot[v] == pot[v],
        Some(u) => false,
    } by {
        assert(parent[v] is None);
    }
}

proof fn lemma_search_ends(
    g: Graph,
    pot: Seq<u32>,
    dist: Seq<u32>,
    settled: Seq<bool>,
    parent: Seq<Option<usize>>,
    time: Seq<nat>,
    t: nat,
)
    requires
        graph_ok(g),
        search_ok(g, pot, dist, settled, parent, time, t),
        forall|w: int| 0 <= w < g.len() && !(#[trigger] settled[w]) ==> dist[w] == INF,
    ensures
        closure_ok(g, pot, dist),
        parents_ok(g, pot, dist, parent, time),
{
    reveal(witnessed);
    reveal(settled_least);
    reveal(parents_sound);
    let n = g.len();
    assert forall|v: int| 0 <= v < n implies {
        &&& #[trigger] dist[v] <= INF
        &&& dist[v] < INF ==> exists|s: int, steps: Seq<Step>| #[trigger] reaches(g, pot, v, s, steps)
            && reach_cost(g, pot, s, steps) == dist[v]
        &&& forall|s: int, steps: Seq<Step>| #[trigger] reaches(g, pot, v, s, steps) ==> dist[v] <= reach_cost(g, pot, s, steps)
    } by {
        if !settled[v] {
            assert forall|s: int, steps: Seq<Step>| #[trigger] reaches(g, pot, v, s, steps) implies dist[v] <= reach_cost(g, pot, s, steps) by {
                let w = lemma_unsettled_on_way(g, pot, dist, settled, parent, time, t, s, steps);
            }
        }
    }
    assert forall|v: int| 0 <= v < n implies match #[trigger] parent[v] {
        None => dist[v] == pot[v],
        Some(u) => {
            &&& (u as int) < n
            &&& dist[v] < INF
            &&& time[u as int] < time[v]
            &&& exists|k: int| 0 <= k < g[u as int]@.len() && (#[trigger] g[u as int]@[k]).0 == v
                && dist[v] == dist[u as int] + g[u as int]@[k].1
        },
    } by {
        if parent[v] is Some {
            assert(settled[v]);
        }
    }
}

/// Relaxes the connections out of the just-settled node `u`.
fn relax_from(
    g: &Vec<Vec<(usize, u32)>>,
    u: usize,
    dist: &mut Vec<u32>,
    settled: &Vec<bool>,
    parent: &mut Vec<Option<usize>>,
    Ghost(pot): Ghost<Seq<u32>>,
    Ghost(time): Ghost<Seq<nat>>,
    Ghost(t): Ghost<nat>,
)
    requires
        graph_ok(g@),
        (u as int) < g@.len(),
        settled@[u as int],
        old(dist)@[u as int] < INF,
        time[u as int] < t,
        pot.len() == g@.len(),
        old(dist)@.len() == g@.len(),
        settled@.len() == g@.len(),
        old(parent)@.len() == g@.len(),
        time.len() == g@.len(),
        forall|v: int| 0 <= v < g@.len() ==> #[trigger] old(dist)@[v] <= INF,
        forall|a: int| 0 <= a < g@.len() && #[trigger] settled@[a] ==> old(dist)@[a] <= old(dist)@[u as int],
        witnessed(g@, pot, old(dist)@),
        settled_least(g@, pot, old(dist)@, settled@),
        relaxed(g@, old(dist)@, settled@, u as int, 0),
        settled_first(old(dist)@, settled@),
        below_start(pot, old(dist)@),
        parents_sound(g@, pot, old(dist)@, settled@, old(parent)@, time, t),
        times_ok(settled@, time, t),
    ensures
        final(dist)@.len() == g@.len(),
        final(parent)@.len() == g@.len(),
        forall|v: int| 0 <= v < g@.len() ==> #[trigger] final(dist)@[v] <= INF,
        witnessed(g@, pot, final(dist)@),
        settled_least(g@, pot, final(dist)@, settled@),
        relaxed(g@, final(dist)@, settled@, -1, 0),
        settled_first(final(dist)@, settled@),
        below_start(pot, final(dist)@),
        parents_sound(g@, pot, final(dist)@, settled@, final(parent)@, time, t),
{
    let mut k: usize = 0;
    while k < g[u].len()
        invariant
            graph_ok(g@),
            (u as int) < g@.len(),
            settled@[u as int],
            dist@[u as int] < INF,
            time[u as int] < t,
            k <= g@[u as int]@.len(),
            pot.len() == g@.len(),
            dist@.len() == g@.len(),
            settled@.len() == g@.len(),
            parent@.len() == g@.len(),
            time.len() == g@.len(),
            forall|v: int| 0 <= v < g@.len() ==> #[trigger] dist@[v] <= INF,
            forall|a: int| 0 <= a < g@.len() && #[trigger] settled@[a] ==> dist@[a] <= dist@[u as int],
            witnessed(g@, pot, dist@),
            settled_least(g@, pot, dist@, settled@),
            relaxed(g@, dist@, settled@, u as int, k as int),
            settled_first(dist@, settled@),
            below_start(pot, dist@),
            parents_sound(g@, pot, dist@, settled@, parent@, time, t),
            times_ok(settled@, time, t),
        decreases g@[u as int]@.len() - k,
    {
        let (w, c) = g[u][k];
        proof {
            assert(g@[u as int]@[k as int] == (w, c));
        }
        let mut changed = false;
        if !settled[w] {
            // Saturates above every cost below `INF`, so no dearer route wins.
            let nc = dist[u].saturating_add(c);
            if nc < dist[w] {
                proof {
                    lemma_relax(g@, pot, dist@, settled@, parent@, time, t, u as int, k as int);
                }
                dist.set(w, nc);
                parent.set(w, Some(u));
                changed = true;
            }
        }
        if !changed {
            proof {
                reveal(relaxed);
            }
        }
        k = k + 1;
    }
    proof {
        reveal(relaxed);
    }
}

proof fn lemma_map_graph(map: &GameMap)
    requires
        map.wf(),
    ensures
        graph_ok(map.edges@),
        map.edges@.len() == map.cities@.len(),
{
    assert forall|u: int, k: int| 0 <= u < map.edges@.len() && 0 <= k < map.edges@[u]@.len() implies
        ((#[trigger] map.edges@[u]@[k]).0 as int) < map.edges@.len() by {
        assert(map.edges[u][k] == map.edges@[u]@[k]);
    }
    assert(map.edges.len() == map.edges@.len());
}

/// The least costs of reaching each city of `map` from the starting costs
/// `pot` (`INF` for none), found by settling cities cheapest first (the one
/// whose id sorts first among equals) and relaxing their connections to
/// unsettled cities; with the parent each improved city was last reached from.
pub fn closure(map: &GameMap, pot: &Vec<u32>) -> (r: (Vec<u32>, Vec<Option<usize>>, Ghost<Seq<nat>>))
    requires
        map.wf(),
        pot@.len() == map.cities@.len(),
        forall|v: int| 0 <= v < pot@.len() ==> #[trigger] pot@[v] <= INF,
    ensures
        closure_ok(map.edges@, pot@, r.0@),
        parents_ok(map.edges@, pot@, r.0@, r.1@, r.2@),
{
    proof {
        lemma_map_graph(map);
    }
    let g = &map.edges;
    let n = g.len();
    let (mut dist, mut settled, mut parent) = start_search(pot);
    let ghost mut time: Seq<nat> = Seq::new(n as nat, |v: int| n as nat);
    let mut t: usize = 0;
    proof {
        lemma_search_starts(g@, pot@, settled@, parent@, time);
    }
    let mut done = false;
    while !done && t < n
        invariant
            n == g@.len(),
            g@ == map.edges@,
            map.cities@.len() == n,
            graph_ok(g@),
            forall|v: int| 0 <= v < pot@.len() ==> #[trigger] pot@[v] <= INF,
            t <= n,
            search_ok(g@, pot@, dist@, settled@, parent@, time, t as nat),
            settled_count(settled@) == t,
            done ==> forall|w: int| 0 <= w < n && !(#[trigger] settled@[w]) ==> dist@[w] == INF,
        decreases n - t + (if done { 0int } else { 1int }),
    {
        match cheapest_unsettled(map, &dist, &settled) {
            None => {
                done = true;
            },
            Some(u) => {
                let ghost before = settled@;
                proof {
                    lemma_settle(g@, pot@, dist@, settled@, parent@, time, t as nat, u as int);
                    lemma_settled_count_update(settled@, u as int);
                    lemma_settled_count_bound(settled@, u as int);
                }
                settled.set(u, true);
                proof {
                    time = time.update(u as int, t as nat);
                    reveal(settled_first);
                    assert forall|a: int| 0 <= a < n && #[trigger] settled@[a] implies dist@[a] <= dist@[u as int] by {
                        if a != u {
                            assert(before[a] && !before[u as int]);
                        }
                    }
                }
                t = t + 1;
                relax_from(g, u, &mut dist, &settled, &mut parent, Ghost(pot@), Ghost(time), Ghost(t as nat));
            },
        }
    }
    proof {
        if !done {
            assert forall|w: int| 0 <= w < n && !(#[trigger] settled@[w]) implies dist@[w] == INF by {
                lemma_settled_count_bound(settled@, w);
            }
        }
        lemma_search_ends(g@, pot@, dist@, settled@, parent@, time, t as nat);
    }
    (dist, parent, Ghost(time))
}

/// Lowering the cost of the unsettled end of the `k`-th connection out of
/// the just-settled node `u` keeps the invariant.
proof fn lemma_relax(
    g: Graph,
    pot: Seq<u32>,
    dist: Seq<u32>,
    settled: Seq<bool>,
    parent: Seq<Option<usize>>,
    time: Seq<nat>,
    t: nat,
    u: int,
    k: int,
)
    requires
        graph_ok(g),
        pot.len() == g.len(),
        dist.len() == g.len(),
        settled.len() == g.len(),
        parent.len() == g.len(),
        time.len() == g.len(),
        0 <= u < g.len(),
        0 <= k < g[u]@.len(),
        settled[u],
        dist[u] < INF,
        time[u] < t,
        !settled[g[u]@[k].0 as int],
        dist[u] + g[u]@[k].1 < dist[g[u]@[k].0 as int],
        forall|v: int| 0 <= v < g.len() ==> #[trigger] dist[v] <= INF,
        forall|a: int| 0 <= a < g.len() && #[trigger] settled[a] ==> dist[a] <= dist[u],
        witnessed(g, pot, dist),
        settled_least(g, pot, dist, settled),
        relaxed(g, dist, settled, u, k),
        settled_first(dist, settled),
        below_start(pot, dist),
        parents_sound(g, pot, dist, settled, parent, time, t),
        times_ok(settled, time, t),
    ensures
        ({
            let w = g[u]@[k].0 as int;
            let nc = (dist[u] + g[u]@[k].1) as u32;
            let dist2 = dist.update(w, nc);
            let parent2 = parent.update(w, Some(u as usize));
            &&& forall|v: int| 0 <= v < g.len() ==> #[trigger] dist2[v] <= INF
            &&& forall|a: int| 0 <= a < g.len() && #[trigger] settled[a] ==> dist2[a] <= dist2[u]
            &&& witnessed(g, pot, dist2)
            &&& settled_least(g, pot, dist2, settled)
            &&& relaxed(g, dist2, settled, u, k + 1)
            &&& settled_first(dist2, settled)
            &&& below_start(pot, dist2)
            &&& parents_sound(g, pot, dist2, settled, parent2, time, t)
        }),
{
    reveal(witnessed);
    reveal(settled_least);
    reveal(relaxed);
    reveal(settled_first);
    reveal(below_start);
    reveal(parents_sound);
    let w = g[u]@[k].0 as int;
    let nc = (dist[u] + g[u]@[k].1) as u32;
    let dist2 = dist.update(w, nc);
    let parent2 = parent.update(w, Some(u as usize));
    let (s0, st0) = lemma_extend_way(g, pot, dist, u, k);
    assert forall|v: int| 0 <= v < dist2.len() && #[trigger] dist2[v] < INF implies
        exists|s: int, steps: Seq<Step>| #[trigger] reaches(g, pot, v, s, steps) && reach_cost(g, pot, s, steps) == dist2[v] by {
        if v == w {
            assert(reaches(g, pot, v, s0, st0));
        } else {
            assert(dist2[v] == dist[v]);
        }
    }
    assert forall|x: int, j: int| 0 <= x < settled.len() && settled[x] && 0 <= j < g[x]@.len() && (x != u || j < k + 1)
        && !settled[(#[trigger] g[x]@[j]).0 as int] implies dist2[g[x]@[j].0 as int] <= dist2[x] + g[x]@[j].1 by {
        assert(dist2[x] == dist[x]);
    }
    assert forall|a: int, b: int| 0 <= a < settled.len() && 0 <= b < settled.len() && #[trigger] settled[a] && !#[trigger] settled[b]
        implies dist2[a] <= dist2[b] by {
        assert(dist2[a] == dist[a]);
    }
    assert forall|v: int| 0 <= v < parent2.len() implies match #[trigger] parent2[v] {
        None => dist2[v] == pot[v],
        Some(p) => {
            &&& (p as int) < parent2.len()
            &&& dist2[v] < INF
            &&& settled[p as int]
            &&& time[p as int] < (if settled[v] { time[v] } else { t })
            &&& exists|j: int| 0 <= j < g[p as int]@.len() && (#[trigger] g[p as int]@[j]).0 == v
                && dist2[v] == dist2[p as int] + g[p as int]@[j].1
        },
    } by {
        if v == w {
            assert(g[u]@[k].0 == v);
        } else {
            match parent[v] {
                None => {},
                Some(p) => {
                    assert(p as int != w);
                    let j = choose|j: int| 0 <= j < g[p as int]@.len() && (#[trigger] g[p as int]@[j]).0 == v
                        && dist[v] == dist[p as int] + g[p as int]@[j].1;
                    assert(g[p as int]@[j].0 == v);
                },
            }
        }
    }
}

// ---------------------------------------------------------------------------
// Subsets of the target cities
// ---------------------------------------------------------------------------

proof fn lemma_next_submask_below(mask: usize, sub: usize)
    requires
        sub > 0,
    ensures
        (sub - 1) as usize & mask < sub,
        ((sub - 1) as usize & mask) & mask == (sub - 1) as usize & mask,
{
    assert(sub > 0usize ==> (((sub - 1) as usize) & mask) < sub) by (bit_vector);
    assert((((sub - 1) as usize) & mask) & mask == ((sub - 1) as usize) & mask) by (bit_vector);
}

/// No subset of `mask` lies strictly between `sub` and the next subset
/// below it.
proof fn lemma_no_submask_between(mask: usize, sub: usize, j: usize)
    requires
        sub > 0,
        sub & mask == sub,
        (sub - 1) as usize & mask < j < sub,
    ensures
        j & mask != j,
{
    assert(sub > 0usize && (sub & mask) == sub && (((sub - 1) as usize) & mask) < j && j < sub ==> (j & mask) != j) by (bit_vector);
}

/// A non-empty proper part of `mask` and its complement in `mask` are both
/// non-empty parts below `mask`.
proof fn lemma_split_parts(mask: usize, s: usize)
    requires
        s > 0,
        s & mask == s,
        mask ^ s != 0,
    ensures
        s < mask,
        mask ^ s < mask,
        (mask ^ s) & mask == mask ^ s,
{
    assert(s > 0usize && (s & mask) == s && (mask ^ s) != 0usize ==> s < mask && (mask ^ s) < mask && ((mask ^ s) & mask) == (mask ^ s)) by (bit_vector);
}

/// `j` is a subset of `mask`.
pub open spec fn is_part(j: int, mask: usize) -> bool {
    (j as usize) & mask == j as usize
}

/// The subset holding only target `i`.
pub open spec fn single(i: int) -> usize {
    1usize << (i as usize)
}

/// Starting cost of city `v` for the subset `mask` of the targets `term`:
/// 0 at a target's own city when `mask` is that target alone.
pub open spec fn start_cost(term: Seq<int>, mask: usize, v: int) -> nat {
    if exists|i: int| 0 <= i < term.len() && mask == single(i) && term[i] == v {
        0
    } else {
        INF as nat
    }
}

/// Joining, at city `v`, the best networks for the part `s` of `mask` and
/// for the rest of it (each split counted once, with `s` the smaller).
pub open spec fn split_cost(tab: Seq<Seq<u32>>, mask: usize, s: usize, v: int) -> nat {
    let o = mask ^ s;
    if 0 < s && s & mask == s && s <= o && o != 0 && tab[s as int][v] < INF && tab[o as int][v] < INF {
        (tab[s as int][v] + tab[o as int][v]) as nat
    } else {
        INF as nat
    }
}

pub open spec fn min_nat(a: nat, b: nat) -> nat {
    if a < b { a } else { b }
}

/// The cheapest join at `v` over the splits `s` of `mask` with `j <= s`.
pub open spec fn best_split(tab: Seq<Seq<u32>>, mask: usize, v: int, j: int) -> nat
    decreases mask - j,
{
    if j >= mask || j < 0 {
        INF as nat
    } else {
        min_nat(split_cost(tab, mask, j as usize, v), best_split(tab, mask, v, j + 1))
    }
}

/// The starting cost of `v` for `mask` before connections are added: a
/// target alone starts at its city, a larger subset at its cheapest join.
pub open spec fn merged(tab: Seq<Seq<u32>>, term: Seq<int>, mask: usize, v: int) -> nat {
    min_nat(start_cost(term, mask, v), best_split(tab, mask, v, 1))
}

pub open spec fn merge_row(tab: Seq<Seq<u32>>, term: Seq<int>, mask: usize, n: int) -> Seq<u32> {
    Seq::new(n as nat, |v: int| merged(tab, term, mask, v) as u32)
}

/// `tab[mask]`, for every subset `1 <= mask < upto` of the targets, holds
/// the cost of the cheapest network joining the targets of `mask` and
/// reaching each city: the least cost from the merged starting costs.
pub open spec fn table_ok(g: Graph, term: Seq<int>, tab: Seq<Seq<u32>>, upto: int) -> bool {
    &&& tab.len() >= upto
    &&& forall|mask: int| 1 <= mask < upto ==> #[trigger] closure_ok(g, merge_row(tab, term, mask as usize, g.len() as int), tab[mask])
}

proof fn lemma_best_split_bound(tab: Seq<Seq<u32>>, mask: usize, v: int, j: int)
    ensures
        best_split(tab, mask, v, j) <= INF,
    decreases mask - j,
{
    if !(j >= mask || j < 0) {
        lemma_best_split_bound(tab, mask, v, j + 1);
    }
}

/// Positions with no split between `lo` and `hi` leave the best join alone.
proof fn lemma_best_split_skip(tab: Seq<Seq<u32>>, mask: usize, v: int, lo: int, hi: int)
    requires
        1 <= lo <= hi <= mask,
        forall|j: int| lo <= j < hi ==> !#[trigger] is_part(j, mask),
    ensures
        best_split(tab, mask, v, lo) == best_split(tab, mask, v, hi),
    decreases hi - lo,
{
    if lo < hi {
        lemma_best_split_skip(tab, mask, v, lo + 1, hi);
        assert(!is_part(lo, mask));
        lemma_best_split_bound(tab, mask, v, lo + 1);
    }
}

/// The targets' cities as integers.
pub open spec fn term_nodes(term: Seq<usize>) -> Seq<int> {
    term.map_values(|x: usize| x as int)
}

/// The table rows computed so far, as sequences.
pub open spec fn rows_of(dp: Seq<Vec<u32>>) -> Seq<Seq<u32>> {
    dp.map_values(|r: Vec<u32>| r@)
}

/// A join recorded for a city names two non-empty parts below `mask`.
pub open spec fn joins_ok(from: Seq<Option<(usize, usize)>>, mask: usize) -> bool {
    forall|v: int| 0 <= v < from.len() ==> match #[trigger] from[v] {
        None => true,
        Some((l, o)) => 1 <= l < mask && 1 <= o < mask,
    }
}

/// How city `v`'s merged cost came about: its starting cost when no join is
/// recorded, else the join of two non-empty complementary parts of `mask`
/// whose costs at `v` are both below `INF`.
pub open spec fn join_ok(tab: Seq<Seq<u32>>, terms: Seq<int>, mask: usize, v: int, cost: u32, from: Option<(usize, usize)>) -> bool {
    match from {
        None => cost as nat == start_cost(terms, mask, v),
        Some((l, o)) => {
            &&& 0 < l && l & mask == l && o == mask ^ l && o != 0
            &&& tab[l as int][v] < INF && tab[o as int][v] < INF
            &&& cost == tab[l as int][v] + tab[o as int][v]
        },
    }
}

/// The merged starting costs of the subset `mask` of the targets `term`,
/// given the rows of every smaller subset in `dp`; with, for each city,
/// the split that gave its cost (the first found, larger parts first).
fn merge_costs(n: usize, term: &Vec<usize>, dp: &Vec<Vec<u32>>, mask: usize) -> (r: (Vec<u32>, Vec<Option<(usize, usize)>>))
    requires
        1 <= mask,
        term@.len() < usize::BITS,
        dp@.len() == mask,
        forall|i: int| 0 <= i < term@.len() ==> (#[trigger] term@[i] as int) < n,
        forall|m: int| 0 <= m < dp@.len() ==> (#[trigger] dp@[m])@.len() == n,
        forall|m: int, v: int| 0 <= m < dp@.len() && 0 <= v < n ==> #[trigger] dp@[m]@[v] <= INF,
    ensures
        r.0@ == merge_row(rows_of(dp@), term_nodes(term@), mask, n as int),
        r.1@.len() == n,
        joins_ok(r.1@, mask),
        forall|v: int| 0 <= v < n ==> join_ok(rows_of(dp@), term_nodes(term@), mask, v, #[trigger] r.0@[v], r.1@[v]),
{
    let ghost tab = rows_of(dp@);
    let ghost terms = term_nodes(term@);
    let mut row: Vec<u32> = Vec::new();
    let mut from: Vec<Option<(usize, usize)>> = Vec::new();
    let mut v: usize = 0;
    while v < n
        invariant
            v <= n,
            row@.len() == v,
            from@.len() == v,
            forall|w: int| 0 <= w < v ==> #[trigger] row@[w] == INF,
            forall|w: int| 0 <= w < v ==> (#[trigger] from@[w]) is None,
            joins_ok(from@, mask),
        decreases n - v,
    {
        row.push(INF);
        from.push(None);
        v = v + 1;
    }
    let mut i: usize = 0;
    while i < term.len()
        invariant
            row@.len() == n,
            from@.len() == n,
            forall|w: int| 0 <= w < n ==> (#[trigger] from@[w]) is None,
            joins_ok(from@, mask),
            i <= term@.len(),
            term@.len() < usize::BITS,
            terms == term_nodes(term@),
            forall|j: int| 0 <= j < term@.len() ==> (#[trigger] term@[j] as int) < n,
            forall|w: int| 0 <= w < n ==> #[trigger] row@[w] == (if exists|j: int| 0 <= j < i && mask == single(j) && terms[j] == w {
                0u32
            } else {
                INF
            }),
        decreases term@.len() - i,
    {
        if i < usize::BITS as usize && mask == (1usize << i) {
            let t = term[i];
            row.set(t, 0);
            proof {
                assert forall|w: int| 0 <= w < n implies #[trigger] row@[w] == (if exists|j: int| 0 <= j < i + 1 && mask == single(j) && terms[j] == w {
                    0u32
                } else {
                    INF
                }) by {
                    if w == t as int {
                        assert(mask == single(i as int) && terms[i as int] == w);
                    }
                }
            }
        } else {
            proof {
                assert forall|w: int| 0 <= w < n implies #[trigger] row@[w] == (if exists|j: int| 0 <= j < i + 1 && mask == single(j) && terms[j] == w {
                    0u32
                } else {
                    INF
                }) by {
                    if exists|j: int| 0 <= j < i + 1 && mask == single(j) && terms[j] == w {
                        let j = choose|j: int| 0 <= j < i + 1 && mask == single(j) && terms[j] == w;

                    }
                }
            }
        }
        i = i + 1;
    }
    proof {
        assert forall|w: int| 0 <= w < n implies #[trigger] row@[w] == start_cost(terms, mask, w) by {}
    }
    let mut sub: usize = (mask - 1) & mask;
    proof {
        lemma_next_submask_below(mask, mask);
        assert(mask & mask == mask) by (bit_vector);
        assert forall|j: int| sub < j < mask implies !#[trigger] is_part(j, mask) by {
            lemma_no_submask_between(mask, mask, j as usize);
        }
        assert forall|w: int| 0 <= w < n implies #[trigger] row@[w] == min_nat(start_cost(terms, mask, w), best_split(tab, mask, w, sub + 1)) by {
            lemma_best_split_skip(tab, mask, w, sub + 1, mask as int);
        }
    }
    while sub > 0
        invariant
            sub < mask,
            sub & mask == sub,
            dp@.len() == mask,
            tab == rows_of(dp@),
            forall|m: int| 0 <= m < dp@.len() ==> (#[trigger] dp@[m])@.len() == n,
            forall|m: int, v: int| 0 <= m < dp@.len() && 0 <= v < n ==> #[trigger] dp@[m]@[v] <= INF,
            row@.len() == n,
            from@.len() == n,
            joins_ok(from@, mask),
            terms == term_nodes(term@),
            forall|w: int| 0 <= w < n ==> join_ok(tab, terms, mask, w, #[trigger] row@[w], from@[w]),
            forall|w: int| 0 <= w < n ==> #[trigger] row@[w] == min_nat(start_cost(terms, mask, w), best_split(tab, mask, w, sub + 1)),
        decreases sub,
    {
        let other = mask ^ sub;
        if other != 0 && sub <= other {
            proof {
                lemma_split_parts(mask, sub);
            }
            let mut v: usize = 0;
            while v < n
                invariant
                    0 < sub < mask,
                    sub & mask == sub,
                    other == mask ^ sub,
                    other != 0,
                    sub <= other,
                    other < mask,
                    dp@.len() == mask,
                    tab == rows_of(dp@),
                    forall|m: int| 0 <= m < dp@.len() ==> (#[trigger] dp@[m])@.len() == n,
                    forall|m: int, v: int| 0 <= m < dp@.len() && 0 <= v < n ==> #[trigger] dp@[m]@[v] <= INF,
                    row@.len() == n,
                    from@.len() == n,
                    joins_ok(from@, mask),
                    terms == term_nodes(term@),
                    forall|w: int| 0 <= w < n ==> join_ok(tab, terms, mask, w, #[trigger] row@[w], from@[w]),
                    v <= n,
                    forall|w: int| 0 <= w < v ==> #[trigger] row@[w] == min_nat(start_cost(terms, mask, w), best_split(tab, mask, w, sub as int)),
                    forall|w: int| v <= w < n ==> #[trigger] row@[w] == min_nat(start_cost(terms, mask, w), best_split(tab, mask, w, sub + 1)),
                decreases n - v,
            {
                let a = dp[sub][v];
                let b = dp[other][v];
                proof {
                    assert(tab[sub as int] == dp@[sub as int]@);
                    assert(tab[other as int] == dp@[other as int]@);
                    assert(a == tab[sub as int][v as int] && b == tab[other as int][v as int]);
                }
                if a < INF && b < INF {
                    let cand = a + b;
                    if cand < row[v] {
                        row.set(v, cand);
                        from.set(v, Some((sub, other)));
                    }
                }
                proof {
                    lemma_best_split_bound(tab, mask, v as int, sub + 1);
                }
                v = v + 1;
            }
        } else {
            proof {
                assert forall|w: int| 0 <= w < n implies #[trigger] row@[w] == min_nat(start_cost(terms, mask, w), best_split(tab, mask, w, sub as int)) by {
                    lemma_best_split_bound(tab, mask, w, sub + 1);
                }
            }
        }
        let next = (sub - 1) & mask;
        proof {
            lemma_next_submask_below(mask, sub);
            assert forall|j: int| next < j < sub implies !#[trigger] is_part(j, mask) by {
                lemma_no_submask_between(mask, sub, j as usize);
            }
            assert forall|w: int| 0 <= w < n implies #[trigger] row@[w] == min_nat(start_cost(terms, mask, w), best_split(tab, mask, w, next + 1)) by {
                lemma_best_split_skip(tab, mask, w, next + 1, sub as int);
            }
        }
        sub = next;
    }
    proof {
        assert(row@ =~= merge_row(tab, terms, mask, n as int));
    }
    (row, from)
}

proof fn lemma_best_split_agree(tab1: Seq<Seq<u32>>, tab2: Seq<Seq<u32>>, mask: usize, v: int, j: int)
    requires
        forall|m: int| 1 <= m < mask ==> #[trigger] tab1[m] == tab2[m],
    ensures
        best_split(tab1, mask, v, j) == best_split(tab2, mask, v, j),
    decreases mask - j,
{
    if !(j >= mask || j < 0) {
        lemma_best_split_agree(tab1, tab2, mask, v, j + 1);
        let s = j as usize;
        let o = mask ^ s;
        if 0 < s && s & mask == s && s <= o && o != 0 {
            lemma_split_parts(mask, s);
            assert(tab1[s as int] == tab2[s as int]);
            assert(tab1[o as int] == tab2[o as int]);
        }
    }
}

/// The merged costs of `mask` read only the rows of smaller subsets.
proof fn lemma_merge_row_agree(tab1: Seq<Seq<u32>>, tab2: Seq<Seq<u32>>, term: Seq<int>, mask: usize, n: int)
    requires
        forall|m: int| 1 <= m < mask ==> #[trigger] tab1[m] == tab2[m],
    ensures
        merge_row(tab1, term, mask, n) == merge_row(tab2, term, mask, n),
{
    assert forall|v: int| #![trigger merged(tab1, term, mask, v)] merged(tab1, term, mask, v) == merged(tab2, term, mask, v) by {
        lemma_best_split_agree(tab1, tab2, mask, v, 1);
    }
    assert(merge_row(tab1, term, mask, n) =~= merge_row(tab2, term, mask, n));
}

/// The board positions of the distinct targets, in order of first mention;
/// `None` when one of them is not a city of the board.
pub open spec fn target_nodes(map: &GameMap, targets: Seq<Seq<char>>) -> Option<Seq<int>>
    decreases targets.len(),
{
    if targets.len() == 0 {
        Some(seq![])
    } else {
        match target_nodes(map, targets.drop_last()) {
            None => None,
            Some(prev) => match map.id_pos(targets.last()) {
                None => None,
                Some(p) => if prev.contains(p) { Some(prev) } else { Some(prev.push(p)) },
            },
        }
    }
}

/// Starting costs of the player's network: 0 at each owned city.
pub open spec fn owned_start(map: &GameMap, owned: Seq<Seq<char>>) -> Seq<u32> {
    Seq::new(map.cities@.len() as nat, |v: int| if map.owned_sources(owned)[v] { 0u32 } else { INF })
}

/// The cost of reaching each city from the player's network: 0 everywhere
/// for a player with no city yet.
pub open spec fn root_ok(map: &GameMap, owned: Seq<Seq<char>>, root: Seq<u32>) -> bool {
    if owned.len() == 0 {
        root == Seq::new(map.cities@.len() as nat, |v: int| 0u32)
    } else {
        closure_ok(map.edges@, owned_start(map, owned), root)
    }
}

/// Joining the network for all targets, ending at `v`, to the player's.
pub open spec fn joined_cost(full_row: Seq<u32>, root: Seq<u32>, v: int) -> nat {
    if full_row[v] < INF && root[v] < INF { (full_row[v] + root[v]) as nat } else { INF as nat }
}

/// The cheapest such join over the first `j` cities (`INF` for none).
pub open spec fn cheapest_join(full_row: Seq<u32>, root: Seq<u32>, j: int) -> nat
    decreases j,
{
    if j <= 0 {
        INF as nat
    } else {
        min_nat(joined_cost(full_row, root, j - 1), cheapest_join(full_row, root, j - 1))
    }
}

/// The cheapest way to join the targets of `mask` to the player's network:
/// one network over all of them joined to the player's at one city, or the
/// cheapest such joins of two complementary parts, each on its own.
pub open spec fn forest_cost(tab: Seq<Seq<u32>>, root: Seq<u32>, n: int, mask: usize) -> nat
    decreases mask, 1int, 0int,
{
    if mask == 0 {
        INF as nat
    } else {
        min_nat(cheapest_join(tab[mask as int], root, n), forest_split(tab, root, n, mask, 1))
    }
}

/// The cheapest split of `mask` into two parts joined separately, over the
/// smaller parts `s` with `j <= s` (`INF` for none).
pub open spec fn forest_split(tab: Seq<Seq<u32>>, root: Seq<u32>, n: int, mask: usize, j: int) -> nat
    decreases mask, 0int, mask - j,
{
    if j >= mask || j < 0 {
        INF as nat
    } else {
        let s = j as usize;
        let o = mask ^ s;
        let c = if 0 < s && s < mask && o < mask && s & mask == s && s <= o && o != 0 {
            let a = forest_cost(tab, root, n, s);
            let b = forest_cost(tab, root, n, o);
            if a < INF && b < INF { a + b } else { INF as nat }
        } else {
            INF as nat
        };
        min_nat(c, forest_split(tab, root, n, mask, j + 1))
    }
}

proof fn lemma_join_bound(row: Seq<u32>, root: Seq<u32>, j: int)
    ensures
        cheapest_join(row, root, j) <= INF,
    decreases j,
{
    if j > 0 {
        lemma_join_bound(row, root, j - 1);
    }
}

/// Forest costs read only the rows of the subsets they split into.
proof fn lemma_forest_agree(t1: Seq<Seq<u32>>, t2: Seq<Seq<u32>>, root: Seq<u32>, n: int, mask: usize)
    requires
        forall|m: int| 1 <= m <= mask ==> #[trigger] t1[m] == t2[m],
    ensures
        forest_cost(t1, root, n, mask) == forest_cost(t2, root, n, mask),
    decreases mask, 1int, 0int,
{
    if mask != 0 {
        lemma_forest_split_agree(t1, t2, root, n, mask, 1);
        assert(t1[mask as int] == t2[mask as int]);
    }
}

proof fn lemma_forest_split_agree(t1: Seq<Seq<u32>>, t2: Seq<Seq<u32>>, root: Seq<u32>, n: int, mask: usize, j: int)
    requires
        forall|m: int| 1 <= m <= mask ==> #[trigger] t1[m] == t2[m],
    ensures
        forest_split(t1, root, n, mask, j) == forest_split(t2, root, n, mask, j),
    decreases mask, 0int, mask - j,
{
    if !(j >= mask || j < 0) {
        lemma_forest_split_agree(t1, t2, root, n, mask, j + 1);
        let s = j as usize;
        let o = mask ^ s;
        if 0 < s && s < mask && o < mask && s & mask == s && s <= o && o != 0 {
            lemma_forest_agree(t1, t2, root, n, s);
            lemma_forest_agree(t1, t2, root, n, o);
        }
    }
}

/// The cost of joining the targets of `full` to the player's network from
/// the subset table: the cheapest forest when the player has cities, else
/// the cheapest single network over all of them.
pub open spec fn network_cost(tab: Seq<Seq<u32>>, root: Seq<u32>, n: int, full: usize, has_owned: bool) -> nat {
    if has_owned {
        forest_cost(tab, root, n, full)
    } else {
        cheapest_join(tab[full as int], root, n)
    }
}

/// The subset of all `k` targets.
pub open spec fn all_targets(k: int) -> usize {
    (single(k) - 1) as usize
}

fn positions_of_targets(map: &GameMap, targets: &[String]) -> (r: Option<Vec<usize>>)
    requires
        map.wf(),
    ensures
        match r {
            None => target_nodes(map, id_views(targets@)) is None,
            Some(t) => target_nodes(map, id_views(targets@)) == Some(term_nodes(t@))
                && forall|i: int| 0 <= i < t@.len() ==> (#[trigger] t@[i] as int) < map.cities@.len(),
        },
{
    let mut term: Vec<usize> = Vec::new();
    let mut j: usize = 0;
    while j < targets.len()
        invariant
            map.wf(),
            j <= targets@.len(),
            target_nodes(map, id_views(targets@.subrange(0, j as int))) == Some(term_nodes(term@)),
            forall|i: int| 0 <= i < term@.len() ==> (#[trigger] term@[i] as int) < map.cities@.len(),
        decreases targets@.len() - j,
    {
        let ghost pre = id_views(targets@.subrange(0, j as int));
        proof {
            assert(id_views(targets@.subrange(0, j + 1)).drop_last() =~= pre);
            assert(id_views(targets@.subrange(0, j + 1)).last() == targets@[j as int]@);
        }
        match map.index_of(targets[j].as_str()) {
            None => {
                proof {
                    assert(target_nodes(map, id_views(targets@.subrange(0, j + 1))) is None);
                    lemma_target_nodes_none_extends(map, id_views(targets@), j + 1);
                }
                return None;
            },
            Some(p) => {
                let mut seen = false;
                let mut i: usize = 0;
                while i < term.len()
                    invariant
                        i <= term@.len(),
                        seen == exists|a: int| 0 <= a < i && term@[a] == p,
                    decreases term@.len() - i,
                {
                    if term[i] == p {
                        seen = true;
                    }
                    i = i + 1;
                }
                proof {
                    if seen {
                        let a = choose|a: int| 0 <= a < term@.len() && term@[a] == p;
                        assert(term_nodes(term@)[a] == p as int);
                    } else {
                        if term_nodes(term@).contains(p as int) {
                            let a = choose|a: int| 0 <= a < term_nodes(term@).len() && term_nodes(term@)[a] == p as int;
                            assert(term@[a] == p);
                        }
                    }
                }
                if !seen {
                    term.push(p);
                    proof {
                        assert(term_nodes(term@) =~= term_nodes(term@.drop_last()).push(p as int));
                        assert(term@.drop_last() =~= term@.subrange(0, term@.len() - 1));
                    }
                }
            },
        }
        j = j + 1;
    }
    proof {
        assert(targets@.subrange(0, targets@.len() as int) =~= targets@);
    }
    Some(term)
}

proof fn lemma_target_nodes_nonempty(map: &GameMap, targets: Seq<Seq<char>>)
    requires
        targets.len() > 0,
        target_nodes(map, targets) is Some,
    ensures
        target_nodes(map, targets)->Some_0.len() > 0,
{
    let prev = target_nodes(map, targets.drop_last());
    if let Some(pr) = prev {
        if let Some(p) = map.id_pos(targets.last()) {
            if pr.contains(p) {
                assert(pr.len() > 0);
            }
        }
    }
}

proof fn lemma_target_nodes_none_extends(map: &GameMap, targets: Seq<Seq<char>>, j: int)
    requires
        0 <= j <= targets.len(),
        target_nodes(map, targets.subrange(0, j)) is None,
    ensures
        target_nodes(map, targets) is None,
    decreases targets.len() - j,
{
    if j < targets.len() {
        assert(targets.subrange(0, j + 1).drop_last() =~= targets.subrange(0, j));
        lemma_target_nodes_none_extends(map, targets, j + 1);
    } else {
        assert(targets.subrange(0, j) =~= targets);
    }
}

/// One connection of a network, from the city whose id sorts first.
#[derive(Debug, PartialEq, Eq)]
pub struct ConnectionEdge {
    pub from: String,
    pub to: String,
}

/// A network joining target cities to a player's network: its route cost
/// and its connections, sorted by `from`, then `to`.
#[derive(Debug, PartialEq, Eq)]
pub struct ConnectionNetwork {
    pub route_cost: u32,
    pub edges: Vec<ConnectionEdge>,
}

fn constant_row<T: Copy>(n: usize, x: T) -> (r: Vec<T>)
    ensures
        r@ == Seq::new(n as nat, |v: int| x),
{
    let mut r: Vec<T> = Vec::new();
    let mut v: usize = 0;
    while v < n
        invariant
            v <= n,
            r@ == Seq::new(v as nat, |w: int| x),
        decreases n - v,
    {
        r.push(x);
        v = v + 1;
        assert(r@ =~= Seq::new(v as nat, |w: int| x));
    }
    r
}

/// What `connection_network_for` gives for the targets at `term` (distinct,
/// fewer than the bits of a `usize`) from the network `owned` with at least
/// one city on the board (or none at all): the network cost of the subset
/// table, when below `INF`.
pub open spec fn network_cost_ok(map: &GameMap, owned: Seq<Seq<char>>, term: Seq<int>, r: Option<u32>) -> bool {
    let full = all_targets(term.len() as int);
    exists|tab: Seq<Seq<u32>>, root: Seq<u32>| {
        &&& #[trigger] table_ok(map.edges@, term, tab, full + 1)
        &&& #[trigger] root_ok(map, owned, root)
        &&& ({
            let c = network_cost(tab, root, map.cities@.len() as int, full, owned.len() > 0);
            &&& c < INF ==> r == Some(c as u32)
            &&& c >= INF ==> r is None
        })
    }
}

/// The starting costs of the player's network, when it has a city on the
/// board.
fn owned_costs(map: &GameMap, owned: &[String]) -> (r: Option<Vec<u32>>)
    requires
        map.wf(),
    ensures
        match r {
            None => forall|v: int| 0 <= v < map.cities@.len() ==> !(#[trigger] map.owned_sources(id_views(owned@))[v]),
            Some(p) => p@ == owned_start(map, id_views(owned@))
                && exists|v: int| 0 <= v < map.cities@.len() && #[trigger] map.owned_sources(id_views(owned@))[v],
        },
{
    let src = map.sources_for(owned);
    let n = map.cities.len();
    let mut pot: Vec<u32> = Vec::new();
    let mut any = false;
    let mut v: usize = 0;
    while v < n
        invariant
            n == map.cities@.len(),
            src@ == map.owned_sources(id_views(owned@)),
            v <= n,
            pot@ == owned_start(map, id_views(owned@)).subrange(0, v as int),
            any == exists|w: int| 0 <= w < v && src@[w],
        decreases n - v,
    {
        if src[v] {
            pot.push(0);
            any = true;
        } else {
            pot.push(INF);
        }
        v = v + 1;
        assert(pot@ =~= owned_start(map, id_views(owned@)).subrange(0, v as int));
    }
    if !any {
        return None;
    }
    assert(pot@ =~= owned_start(map, id_views(owned@)));
    Some(pot)
}

// ---------------------------------------------------------------------------
// The network's connections
// ---------------------------------------------------------------------------

/// Target `i` is in the subset `mask`.
pub open spec fn has_target(mask: usize, i: int) -> bool {
    (mask >> (i as usize)) & 1usize == 1usize
}

proof fn lemma_split_targets(m: usize, l: usize, i: int)
    requires
        0 <= i < usize::BITS,
        l & m == l,
        has_target(m, i),
    ensures
        has_target(l, i) || has_target(m ^ l, i),
{
    let b = i as usize;
    assert(b < usize::BITS && (l & m) == l && ((m >> b) & 1usize) == 1usize ==> ((l >> b) & 1usize) == 1usize
        || (((m ^ l) >> b) & 1usize) == 1usize) by (bit_vector);
}

proof fn lemma_single_targets(j: int, i: int)
    requires
        0 <= i < usize::BITS,
        0 <= j < usize::BITS,
        has_target(single(j), i),
    ensures
        i == j,
{
    let b = i as usize;
    let c = j as usize;
    assert(b < usize::BITS && c < usize::BITS && (((1usize << c) >> b) & 1usize) == 1usize ==> b == c) by (bit_vector);
}

proof fn lemma_all_targets(k: int, i: int)
    requires
        0 <= i < k < usize::BITS,
    ensures
        has_target(all_targets(k), i),
{
    let b = i as usize;
    let c = k as usize;
    assert(b < c && c < usize::BITS ==> ((((1usize << c) - 1) as usize >> b) & 1usize) == 1usize) by (bit_vector);
}

/// What the recorded joins and parents of row `m` say about its costs: a
/// join names two complementary parts with costs below `INF` (and no
/// parent); a parent has a cost below `INF`, as has the city; a city with
/// neither kept its starting cost.
pub open spec fn row_trace(tab: Seq<Seq<u32>>, terms: Seq<int>, m: int, joins: Seq<Option<(usize, usize)>>, parents: Seq<Option<usize>>, n: int) -> bool {
    forall|v: int| 0 <= v < n ==> {
        &&& (#[trigger] joins[v]) matches Some((l, o)) ==> (0 < l && l & (m as usize) == l && o == (m as usize) ^ l && o != 0
            && tab[l as int][v] < INF && tab[o as int][v] < INF && parents[v] is None && tab[m][v] == tab[l as int][v] + tab[o as int][v])
        &&& parents[v] matches Some(p) ==> (tab[m][v] < INF && tab[m][p as int] < INF)
        &&& (joins[v] is None && parents[v] is None && tab[m][v] < INF) ==> tab[m][v] as nat == start_cost(terms, m as usize, v)
    }
}

/// Each recorded parent of row `m` is reached over one of its connections
/// at its own cost plus the connection's.
pub open spec fn parent_costs(map: &GameMap, tab: Seq<Seq<u32>>, m: int, parents: Seq<Option<usize>>) -> bool {
    forall|v: int| 0 <= v < map.cities@.len() ==> ((#[trigger] parents[v]) matches Some(u) ==> exists|k: int|
        0 <= k < map.edges@[u as int]@.len() && (#[trigger] map.edges@[u as int]@[k]).0 == v
            && tab[m][v] == tab[m][u as int] + map.edges@[u as int]@[k].1)
}

/// The board has a connection from city `a` to city `b`.
pub open spec fn linked(map: &GameMap, a: int, b: int) -> bool {
    exists|k: int| 0 <= k < map.edges@[a]@.len() && (#[trigger] map.edges@[a]@[k]).0 == b
}

/// The cost of the cheapest connection out of city `a` to city `b` among
/// its first `k` connections, if there is one.
pub open spec fn link_cost_upto(map: &GameMap, a: int, b: int, k: int) -> Option<nat>
    decreases k,
{
    if k <= 0 {
        None
    } else {
        let prev = link_cost_upto(map, a, b, k - 1);
        let e = map.edges@[a]@[k - 1];
        if e.0 as int == b {
            match prev {
                None => Some(e.1 as nat),
                Some(c) => Some(if (e.1 as nat) < c { e.1 as nat } else { c }),
            }
        } else {
            prev
        }
    }
}

/// The cost of the cheapest connection between cities `a` and `b`, listed
/// under either of them (0 for none).
pub open spec fn link_cost(map: &GameMap, a: int, b: int) -> nat {
    let x = link_cost_upto(map, a, b, map.edges@[a]@.len() as int);
    let y = link_cost_upto(map, b, a, map.edges@[b]@.len() as int);
    match (x, y) {
        (Some(c), Some(d)) => if c < d { c } else { d },
        (Some(c), None) => c,
        (None, Some(d)) => d,
        (None, None) => 0,
    }
}

/// The summed cost of the connections that the pairs name.
pub open spec fn pairs_cost(map: &GameMap, ps: Seq<(usize, usize)>) -> nat
    decreases ps.len(),
{
    if ps.len() == 0 {
        0
    } else {
        pairs_cost(map, ps.drop_last()) + link_cost(map, ps.last().0 as int, ps.last().1 as int)
    }
}

/// The summed cost of a network's connections, each at the cheapest board
/// connection between its two cities.
pub open spec fn edges_cost(map: &GameMap, edges: Seq<ConnectionEdge>) -> nat
    decreases edges.len(),
{
    if edges.len() == 0 {
        0
    } else {
        let e = edges.last();
        let c = match (map.id_pos(e.from@), map.id_pos(e.to@)) {
            (Some(a), Some(b)) => link_cost(map, a, b),
            _ => 0,
        };
        edges_cost(map, edges.drop_last()) + c
    }
}

proof fn lemma_link_upto_at_most(map: &GameMap, a: int, b: int, k: int, j: int)
    requires
        0 <= k < j,
        map.edges@[a]@[k].0 as int == b,
    ensures
        link_cost_upto(map, a, b, j) matches Some(c) && c <= map.edges@[a]@[k].1,
    decreases j,
{
    if j - 1 > k {
        lemma_link_upto_at_most(map, a, b, k, j - 1);
    }
}

/// A connection's cost bounds the cheapest between its two cities.
proof fn lemma_link_cost_at_most(map: &GameMap, a: int, b: int, k: int)
    requires
        0 <= k < map.edges@[a]@.len(),
        map.edges@[a]@[k].0 as int == b,
    ensures
        link_cost(map, a, b) <= map.edges@[a]@[k].1,
        link_cost(map, b, a) <= map.edges@[a]@[k].1,
{
    lemma_link_upto_at_most(map, a, b, k, map.edges@[a]@.len() as int);
}

proof fn lemma_pairs_cost_remove(map: &GameMap, s: Seq<(usize, usize)>, i: int)
    requires
        0 <= i < s.len(),
    ensures
        pairs_cost(map, s) == pairs_cost(map, s.remove(i)) + link_cost(map, s[i].0 as int, s[i].1 as int),
    decreases s.len(),
{
    if i == s.len() - 1 {
        assert(s.remove(i) =~= s.drop_last());
    } else {
        lemma_pairs_cost_remove(map, s.drop_last(), i);
        assert(s.remove(i).drop_last() =~= s.drop_last().remove(i));
        assert(s.remove(i).last() == s.last());
    }
}

/// Reordering pairs keeps their summed cost.
proof fn lemma_pairs_cost_perm(map: &GameMap, s1: Seq<(usize, usize)>, s2: Seq<(usize, usize)>)
    requires
        s1.to_multiset() == s2.to_multiset(),
    ensures
        pairs_cost(map, s1) == pairs_cost(map, s2),
    decreases s1.len(),
{
    broadcast use vstd::seq_lib::to_multiset_len, vstd::seq_lib::to_multiset_contains,
        vstd::seq_lib::to_multiset_remove, vstd::seq_lib::to_multiset_build;
    if s1.len() == 0 {
        assert(s2.to_multiset().len() == 0);
    } else {
        let x = s1.last();
        assert(s1.drop_last().push(x) =~= s1);
        assert(s1.to_multiset().count(x) > 0);
        assert(s2.contains(x));
        let i = choose|i: int| 0 <= i < s2.len() && s2[i] == x;
        assert(s1.drop_last().to_multiset() =~= s2.remove(i).to_multiset());
        lemma_pairs_cost_perm(map, s1.drop_last(), s2.remove(i));
        lemma_pairs_cost_remove(map, s2, i);
    }
}

/// Connections as pairs of cities, the one whose id sorts first on the
/// left: each a connection of the board, none twice.
pub open spec fn pairs_ok(map: &GameMap, pairs: Seq<(usize, usize)>) -> bool {
    &&& forall|i: int| 0 <= i < pairs.len() ==> {
        let (a, b) = #[trigger] pairs[i];
        &&& (a as int) < map.cities@.len()
        &&& (b as int) < map.cities@.len()
        &&& lex_lt(map.cities@[a as int].id@, map.cities@[b as int].id@)
        &&& (linked(map, a as int, b as int) || linked(map, b as int, a as int))
    }
    &&& forall|i: int, j: int| 0 <= i < j < pairs.len() ==> #[trigger] pairs[i] != #[trigger] pairs[j]
}

/// The pairs hold the connection between `a` and `b`, either way round.
pub open spec fn has_pair(ps: Seq<(usize, usize)>, a: int, b: int) -> bool {
    ps.contains((a as usize, b as usize)) || ps.contains((b as usize, a as usize))
}

/// `w` walks over the pairs: each step is a pair, either way round.
pub open spec fn pair_walk(ps: Seq<(usize, usize)>, w: Seq<int>) -> bool {
    &&& w.len() >= 1
    &&& forall|i: int| 0 <= i < w.len() ==> 0 <= #[trigger] w[i] <= usize::MAX
    &&& forall|i: int| 0 <= i < w.len() - 1 ==> #[trigger] has_pair(ps, w[i], w[i + 1])
}

/// The pairs join cities `u` and `v`.
pub open spec fn joined(ps: Seq<(usize, usize)>, u: int, v: int) -> bool {
    exists|w: Seq<int>| #[trigger] pair_walk(ps, w) && w[0] == u && w.last() == v
}

/// Every pair of `ps` is among `qs`.
pub open spec fn pairs_within(ps: Seq<(usize, usize)>, qs: Seq<(usize, usize)>) -> bool {
    forall|x: (usize, usize)| ps.contains(x) ==> #[trigger] qs.contains(x)
}

proof fn lemma_joined_refl(ps: Seq<(usize, usize)>, u: int)
    requires
        0 <= u <= usize::MAX,
    ensures
        joined(ps, u, u),
{
    let w = seq![u];
    assert(pair_walk(ps, w));
}

proof fn lemma_joined_step(ps: Seq<(usize, usize)>, u: int, a: int, b: int)
    requires
        0 <= b <= usize::MAX,
        joined(ps, u, a),
        has_pair(ps, a, b),
    ensures
        joined(ps, u, b),
{
    let w = choose|w: Seq<int>| #[trigger] pair_walk(ps, w) && w[0] == u && w.last() == a;
    let w2 = w.push(b);
    assert forall|i: int| 0 <= i < w2.len() - 1 implies #[trigger] has_pair(ps, w2[i], w2[i + 1]) by {
        if i < w.len() - 1 {
            assert(w2[i] == w[i] && w2[i + 1] == w[i + 1]);
            assert(has_pair(ps, w[i], w[i + 1]));
        }
    }
    assert(pair_walk(ps, w2));
}

proof fn lemma_joined_mono(ps: Seq<(usize, usize)>, qs: Seq<(usize, usize)>, u: int, v: int)
    requires
        joined(ps, u, v),
        pairs_within(ps, qs),
    ensures
        joined(qs, u, v),
{
    let w = choose|w: Seq<int>| #[trigger] pair_walk(ps, w) && w[0] == u && w.last() == v;
    assert forall|i: int| 0 <= i < w.len() - 1 implies #[trigger] has_pair(qs, w[i], w[i + 1]) by {
        assert(has_pair(ps, w[i], w[i + 1]));
        if ps.contains((w[i] as usize, w[i + 1] as usize)) {
            assert(qs.contains((w[i] as usize, w[i + 1] as usize)));
        } else {
            assert(qs.contains((w[i + 1] as usize, w[i] as usize)));
        }
    }
    assert(pair_walk(qs, w));
}

proof fn lemma_joined_trans(ps: Seq<(usize, usize)>, u: int, v: int, x: int)
    requires
        joined(ps, u, v),
        joined(ps, v, x),
    ensures
        joined(ps, u, x),
{
    let w1 = choose|w: Seq<int>| #[trigger] pair_walk(ps, w) && w[0] == u && w.last() == v;
    let w2 = choose|w: Seq<int>| #[trigger] pair_walk(ps, w) && w[0] == v && w.last() == x;
    let w = w1 + w2.drop_first();
    assert forall|i: int| 0 <= i < w.len() - 1 implies #[trigger] has_pair(ps, w[i], w[i + 1]) by {
        if i < w1.len() - 1 {
            assert(w[i] == w1[i] && w[i + 1] == w1[i + 1]);
            assert(has_pair(ps, w1[i], w1[i + 1]));
        } else if i == w1.len() - 1 {
            assert(w[i] == v && w[i + 1] == w2[1]);
            assert(has_pair(ps, w2[0], w2[1]));
        } else {
            let j = i - w1.len() + 1;
            assert(w[i] == w2[j] && w[i + 1] == w2[j + 1]);
            assert(has_pair(ps, w2[j], w2[j + 1]));
        }
    }
    if w2.len() == 1 {
        assert(w =~= w1);
    }
    assert(pair_walk(ps, w));
}

/// Adds the connection between `a` and `b`, unless already there.
fn add_pair(map: &GameMap, pairs: &mut Vec<(usize, usize)>, a: usize, b: usize)
    requires
        map.wf(),
        (a as int) < map.cities@.len(),
        (b as int) < map.cities@.len(),
        a != b,
        linked(map, a as int, b as int),
        pairs_ok(map, old(pairs)@),
    ensures
        pairs_ok(map, final(pairs)@),
        pairs_within(old(pairs)@, final(pairs)@),
        has_pair(final(pairs)@, a as int, b as int),
        pairs_cost(map, final(pairs)@) <= pairs_cost(map, old(pairs)@) + link_cost(map, a as int, b as int),
{
    let (x, y) = if str_lt(map.cities[a].id.as_str(), map.cities[b].id.as_str()) {
        (a, b)
    } else {
        proof {
            assert(map.cities@[a as int].id@ != map.cities@[b as int].id@) by {
                if a < b {
                    assert(map.cities[a as int].id@ != map.cities[b as int].id@);
                } else {
                    assert(map.cities[b as int].id@ != map.cities[a as int].id@);
                }
            }
            lemma_lex_lt_total(map.cities@[a as int].id@, map.cities@[b as int].id@);
        }
        (b, a)
    };
    proof {
        assert(linked(map, x as int, y as int) || linked(map, y as int, x as int));
        assert(lex_lt(map.cities@[x as int].id@, map.cities@[y as int].id@));
    }
    let mut i: usize = 0;
    while i < pairs.len()
        invariant
            pairs@ == old(pairs)@,
            pairs_ok(map, pairs@),
            (x as int) < map.cities@.len(),
            (y as int) < map.cities@.len(),
            lex_lt(map.cities@[x as int].id@, map.cities@[y as int].id@),
            linked(map, x as int, y as int) || linked(map, y as int, x as int),
            (x == a && y == b) || (x == b && y == a),
            i <= pairs@.len(),
            forall|j: int| 0 <= j < i ==> pairs@[j] != (x, y),
        decreases pairs@.len() - i,
    {
        if pairs[i].0 == x && pairs[i].1 == y {
            proof {
                assert(pairs@[i as int] == (x, y));
                assert(pairs@.contains((x, y)));
            }
            return;
        }
        i = i + 1;
    }
    let ghost before = pairs@;
    pairs.push((x, y));
    proof {
        let ps = pairs@;
        assert(ps.drop_last() =~= before);
        assert(ps[ps.len() - 1] == (x, y));
        assert(ps.contains((x, y)));
        assert forall|q: (usize, usize)| before.contains(q) implies #[trigger] ps.contains(q) by {
            let t = choose|t: int| 0 <= t < before.len() && before[t] == q;
            assert(ps[t] == q);
        }
        assert forall|i: int, j: int| 0 <= i < j < ps.len() implies #[trigger] ps[i] != #[trigger] ps[j] by {
            if j == ps.len() - 1 {
                assert(ps[i] == old(pairs)@[i]);
            } else {
                assert(ps[i] == old(pairs)@[i] && ps[j] == old(pairs)@[j]);
            }
        }
        assert forall|i: int| 0 <= i < ps.len() implies {
            let (a, b) = #[trigger] ps[i];
            &&& (a as int) < map.cities@.len()
            &&& (b as int) < map.cities@.len()
            &&& lex_lt(map.cities@[a as int].id@, map.cities@[b as int].id@)
            &&& (linked(map, a as int, b as int) || linked(map, b as int, a as int))
        } by {
            if i < ps.len() - 1 {
                assert(ps[i] == old(pairs)@[i]);
            }
        }
    }
}

/// What the recorded joins and parents of every subset row say: joins name
/// smaller subsets, parents are earlier-settled cities joined by a
/// connection.
pub open spec fn trace_ok(map: &GameMap, joins: Seq<Vec<Option<(usize, usize)>>>, parents: Seq<Vec<Option<usize>>>, times: Seq<Seq<nat>>) -> bool {
    let n = map.cities@.len();
    &&& parents.len() == joins.len()
    &&& times.len() == joins.len()
    &&& forall|m: int| 0 <= m < joins.len() ==> {
        &&& (#[trigger] joins[m])@.len() == n
        &&& parents[m]@.len() == n
        &&& times[m].len() == n
        &&& forall|v: int| 0 <= v < n ==> match #[trigger] joins[m]@[v] {
            None => true,
            Some((l, o)) => 1 <= l < m && 1 <= o < m,
        }
        &&& forall|v: int| 0 <= v < n ==> match #[trigger] parents[m]@[v] {
            None => true,
            Some(u) => (u as int) < n && times[m][u as int] < times[m][v] && linked(map, u as int, v),
        }
    }
}

/// Adds the connections of the network recorded for subset `mask` ending
/// at city `v`: both halves of a join, else the connection to the parent
/// and the parent's own network.
fn collect_pairs(
    map: &GameMap,
    joins: &Vec<Vec<Option<(usize, usize)>>>,
    parents: &Vec<Vec<Option<usize>>>,
    mask: usize,
    v: usize,
    pairs: &mut Vec<(usize, usize)>,
    Ghost(times): Ghost<Seq<Seq<nat>>>,
    Ghost(tab): Ghost<Seq<Seq<u32>>>,
    Ghost(terms): Ghost<Seq<int>>,
)
    requires
        map.wf(),
        trace_ok(map, joins@, parents@, times),
        1 <= mask,
        (mask as int) < joins@.len(),
        (v as int) < map.cities@.len(),
        pairs_ok(map, old(pairs)@),
        terms.len() < usize::BITS,
        tab.len() >= joins@.len(),
        tab[mask as int][v as int] < INF,
        forall|m: int| 1 <= m < joins@.len() ==> #[trigger] row_trace(tab, terms, m, joins@[m]@, parents@[m]@, map.cities@.len() as int),
        forall|m: int| 1 <= m < joins@.len() ==> #[trigger] parent_costs(map, tab, m, parents@[m]@),
    ensures
        pairs_ok(map, final(pairs)@),
        pairs_within(old(pairs)@, final(pairs)@),
        forall|i: int| 0 <= i < terms.len() && #[trigger] has_target(mask, i) ==> joined(final(pairs)@, terms[i], v as int),
        pairs_cost(map, final(pairs)@) <= pairs_cost(map, old(pairs)@) + tab[mask as int][v as int],
    decreases mask, times[mask as int][v as int],
{
    let n = map.cities.len();
    let ghost p0 = pairs@;
    proof {
        assert(joins@[mask as int]@.len() == n);
        assert(row_trace(tab, terms, mask as int, joins@[mask as int]@, parents@[mask as int]@, n as int));
    }
    match joins[mask][v] {
        Some((l, o)) => {
            proof {
                assert(joins@[mask as int]@[v as int] == Some((l, o)));
                assert(1 <= l < mask && 1 <= o < mask);
            }
            collect_pairs(map, joins, parents, l, v, pairs, Ghost(times), Ghost(tab), Ghost(terms));
            let ghost p1 = pairs@;
            collect_pairs(map, joins, parents, o, v, pairs, Ghost(times), Ghost(tab), Ghost(terms));
            proof {
                assert forall|x: (usize, usize)| p0.contains(x) implies #[trigger] pairs@.contains(x) by {
                    assert(p1.contains(x));
                }
                assert forall|i: int| 0 <= i < terms.len() && #[trigger] has_target(mask, i) implies joined(pairs@, terms[i], v as int) by {
                    lemma_split_targets(mask, l, i);
                    if has_target(l, i) {
                        lemma_joined_mono(p1, pairs@, terms[i], v as int);
                    }
                }
            }
            return;
        },
        None => {},
    }
    match parents[mask][v] {
        Some(p) => {
            proof {
                assert(parents@[mask as int]@[v as int] == Some(p));
                assert((p as int) < n && times[mask as int][p as int] < times[mask as int][v as int]);
                assert(linked(map, p as int, v as int));
            }
            proof {
                assert(parent_costs(map, tab, mask as int, parents@[mask as int]@));
                let k = choose|k: int| 0 <= k < map.edges@[p as int]@.len() && (#[trigger] map.edges@[p as int]@[k]).0 == v
                    && tab[mask as int][v as int] == tab[mask as int][p as int] + map.edges@[p as int]@[k].1;
                lemma_link_cost_at_most(map, p as int, v as int, k);
            }
            add_pair(map, pairs, p, v);
            let ghost p1 = pairs@;
            collect_pairs(map, joins, parents, mask, p, pairs, Ghost(times), Ghost(tab), Ghost(terms));
            proof {
                assert forall|x: (usize, usize)| p0.contains(x) implies #[trigger] pairs@.contains(x) by {
                    assert(p1.contains(x));
                }
                assert(has_pair(pairs@, p as int, v as int)) by {
                    if p1.contains((p, v)) {
                        assert(pairs@.contains((p, v)));
                    } else {
                        assert(pairs@.contains((v, p)));
                    }
                }
                assert forall|i: int| 0 <= i < terms.len() && #[trigger] has_target(mask, i) implies joined(pairs@, terms[i], v as int) by {
                    lemma_joined_step(pairs@, terms[i], p as int, v as int);
                }
            }
        },
        None => {
            proof {
                assert(tab[mask as int][v as int] as nat == start_cost(terms, mask, v as int));
                let i0 = choose|i0: int| 0 <= i0 < terms.len() && mask == single(i0) && terms[i0] == v;
                assert forall|i: int| 0 <= i < terms.len() && #[trigger] has_target(mask, i) implies joined(pairs@, terms[i], v as int) by {
                    lemma_single_targets(i0, i);
                    lemma_joined_refl(pairs@, v as int);
                }
            }
        },
    }
}

/// Adds the connections of the route from the player's network to `v`.
fn add_root_path(
    map: &GameMap,
    parent: &Vec<Option<usize>>,
    v: usize,
    pairs: &mut Vec<(usize, usize)>,
    Ghost(time): Ghost<Seq<nat>>,
    Ghost(cost): Ghost<Seq<u32>>,
    Ghost(start): Ghost<Seq<u32>>,
)
    requires
        map.wf(),
        parent@.len() == map.cities@.len(),
        time.len() == map.cities@.len(),
        cost.len() == map.cities@.len(),
        start.len() == map.cities@.len(),
        (v as int) < map.cities@.len(),
        cost[v as int] < INF,
        forall|w: int| 0 <= w < map.cities@.len() ==> match #[trigger] parent@[w] {
            None => cost[w] == start[w],
            Some(u) => (u as int) < map.cities@.len() && time[u as int] < time[w] && linked(map, u as int, w) && cost[u as int] < INF
                && exists|k: int| 0 <= k < map.edges@[u as int]@.len() && (#[trigger] map.edges@[u as int]@[k]).0 == w
                    && cost[w] == cost[u as int] + map.edges@[u as int]@[k].1,
        },
        pairs_ok(map, old(pairs)@),
    ensures
        pairs_ok(map, final(pairs)@),
        pairs_within(old(pairs)@, final(pairs)@),
        exists|u: int| 0 <= u < map.cities@.len() && start[u] < INF && #[trigger] joined(final(pairs)@, v as int, u),
        pairs_cost(map, final(pairs)@) <= pairs_cost(map, old(pairs)@) + cost[v as int],
    decreases time[v as int],
{
    let ghost p0 = pairs@;
    match parent[v] {
        Some(p) => {
            proof {
                assert(parent@[v as int] == Some(p));
                let k = choose|k: int| 0 <= k < map.edges@[p as int]@.len() && (#[trigger] map.edges@[p as int]@[k]).0 == v
                    && cost[v as int] == cost[p as int] + map.edges@[p as int]@[k].1;
                lemma_link_cost_at_most(map, p as int, v as int, k);
            }
            add_pair(map, pairs, p, v);
            let ghost p1 = pairs@;
            add_root_path(map, parent, p, pairs, Ghost(time), Ghost(cost), Ghost(start));
            proof {
                assert forall|x: (usize, usize)| p0.contains(x) implies #[trigger] pairs@.contains(x) by {
                    assert(p1.contains(x));
                }
                let u = choose|u: int| 0 <= u < map.cities@.len() && start[u] < INF && #[trigger] joined(pairs@, p as int, u);
                assert(has_pair(pairs@, v as int, p as int)) by {
                    if p1.contains((p, v)) {
                        assert(pairs@.contains((p, v)));
                    } else {
                        assert(pairs@.contains((v, p)));
                    }
                }
                lemma_joined_refl(pairs@, v as int);
                lemma_joined_step(pairs@, v as int, v as int, p as int);
                lemma_joined_trans(pairs@, v as int, p as int, u);
            }
        },
        None => {
            proof {
                assert(parent@[v as int] is None);
                lemma_joined_refl(pairs@, v as int);
                assert(start[v as int] < INF);
            }
        },
    }
}

/// `a` comes before `b`: by the first city's id, then the second's.
pub open spec fn edge_lt(a: ConnectionEdge, b: ConnectionEdge) -> bool {
    lex_lt(a.from@, b.from@) || (a.from@ == b.from@ && lex_lt(a.to@, b.to@))
}

/// The connections of a network: each between two cities of the board
/// that a connection of the board joins, the city whose id sorts first as
/// `from`; sorted strictly by `from`, then `to`.
pub open spec fn edges_ok(map: &GameMap, edges: Seq<ConnectionEdge>) -> bool {
    &&& forall|i: int| 0 <= i < edges.len() ==> edge_on_board(map, #[trigger] edges[i])
    &&& forall|i: int, j: int| 0 <= i < j < edges.len() ==> edge_lt(#[trigger] edges[i], #[trigger] edges[j])
}

/// `e` joins two cities of the board that a connection joins, the city
/// whose id sorts first as `from`.
pub open spec fn edge_on_board(map: &GameMap, e: ConnectionEdge) -> bool {
    exists|a: int, b: int| {
        &&& 0 <= a < map.cities@.len()
        &&& 0 <= b < map.cities@.len()
        &&& (#[trigger] map.cities@[a]).id@ == e.from@
        &&& (#[trigger] map.cities@[b]).id@ == e.to@
        &&& lex_lt(e.from@, e.to@)
        &&& (linked(map, a, b) || linked(map, b, a))
    }
}

fn pair_lt(map: &GameMap, p: (usize, usize), q: (usize, usize)) -> (r: bool)
    requires
        (p.0 as int) < map.cities@.len(),
        (p.1 as int) < map.cities@.len(),
        (q.0 as int) < map.cities@.len(),
        (q.1 as int) < map.cities@.len(),
    ensures
        r == (lex_lt(map.cities@[p.0 as int].id@, map.cities@[q.0 as int].id@) || (map.cities@[p.0 as int].id@
            == map.cities@[q.0 as int].id@ && lex_lt(map.cities@[p.1 as int].id@, map.cities@[q.1 as int].id@))),
{
    let a = map.cities[p.0].id.as_str();
    let b = map.cities[q.0].id.as_str();
    if str_lt(a, b) {
        return true;
    }
    str_eq(a, b) && str_lt(map.cities[p.1].id.as_str(), map.cities[q.1].id.as_str())
}

/// The network's connections as edges between city ids, sorted.
/// A city of the board is found again by its id.
proof fn lemma_id_pos_of(map: &GameMap, a: int)
    requires
        map.wf(),
        0 <= a < map.cities@.len(),
    ensures
        map.id_pos(map.cities@[a].id@) == Some(a),
{
    let id = map.cities@[a].id@;
    assert(map.cities[a].id@ == id);
    let c = choose|i: int| 0 <= i < map.cities.len() && (#[trigger] map.cities[i]).id@ == id;
    if c != a {
        if c < a {
            assert(map.cities[c].id@ != map.cities[a].id@);
        } else {
            assert(map.cities[a].id@ != map.cities[c].id@);
        }
    }
}

fn sorted_edges(map: &GameMap, pairs: Vec<(usize, usize)>) -> (r: Vec<ConnectionEdge>)
    requires
        map.wf(),
        pairs_ok(map, pairs@),
    ensures
        edges_ok(map, r@),
        edges_cost(map, r@) == pairs_cost(map, pairs@),
        forall|x: (usize, usize)| #[trigger] pairs@.contains(x) ==> exists|i: int| 0 <= i < r@.len()
            && (#[trigger] r@[i]).from@ == map.cities@[x.0 as int].id@ && r@[i].to@ == map.cities@[x.1 as int].id@,
{
    let ghost input = pairs@;
    let mut ps = pairs;
    let n = ps.len();
    let mut k: usize = 0;
    // Insertion sort on the ids.
    while k < n
        invariant
            map.wf(),
            ps@.len() == n,
            k <= n,
            pairs_ok(map, ps@),
            ps@.to_multiset() == input.to_multiset(),
            forall|a: int, b: int| 0 <= a < b < k ==> #[trigger] pair_before(map, ps@[a], ps@[b]),
        decreases n - k,
    {
        let ghost before = ps@;
        let e = ps.remove(k);
        let mut j: usize = k;
        proof {
            assert(before[k as int] == e);
            assert forall|t: int| 0 <= t < ps@.len() implies ((#[trigger] ps@[t]).0 as int) < map.cities@.len()
                && (ps@[t].1 as int) < map.cities@.len() by {
                if t < k {
                    assert(ps@[t] == before[t]);
                } else {
                    assert(ps@[t] == before[t + 1]);
                }
            }
        }
        while j > 0 && pair_lt(map, e, ps[j - 1])
            invariant
                map.wf(),
                ps@.len() == n - 1,
                (e.0 as int) < map.cities@.len(),
                (e.1 as int) < map.cities@.len(),
                forall|t: int| 0 <= t < ps@.len() ==> ((#[trigger] ps@[t]).0 as int) < map.cities@.len()
                    && (ps@[t].1 as int) < map.cities@.len(),
                j <= k < n,
                ps@ == before.remove(k as int),
                pairs_ok(map, before),
                before[k as int] == e,
                forall|t: int| j <= t < k ==> pair_before(map, e, #[trigger] ps@[t]),
            decreases j,
        {
            j = j - 1;
        }
        let ghost mid = ps@;
        ps.insert(j, e);
        proof {
            let ov = ps@;
            assert(ov =~= mid.insert(j as int, e));
            lemma_insert_pairs_ok(map, before, k as int, j as int);
            if j > 0 {
                lemma_pair_before_total(map, before, j - 1, k as int);
                assert(pair_before(map, mid[j - 1], e));
            }
            assert forall|a: int, b: int| 0 <= a < b < k + 1 implies #[trigger] pair_before(map, ov[a], ov[b]) by {
                if a < j && b < j {
                    assert(ov[a] == mid[a] && ov[b] == mid[b]);
                } else if a < j && b == j {
                    if a < j - 1 {
                        lemma_pair_before_trans(map, mid[a], mid[j - 1], e);
                    }
                } else if a < j && b > j {
                    assert(ov[b] == mid[b - 1]);
                    assert(pair_before(map, mid[a], mid[b - 1]));
                } else if a == j {
                    assert(ov[b] == mid[b - 1]);
                } else {
                    assert(ov[a] == mid[a - 1] && ov[b] == mid[b - 1]);
                }
            }
        }
        k = k + 1;
    }
    let mut out: Vec<ConnectionEdge> = Vec::new();
    let mut i: usize = 0;
    while i < n
        invariant
            map.wf(),
            ps@.len() == n,
            i <= n,
            pairs_ok(map, ps@),
            ps@.to_multiset() == input.to_multiset(),
            forall|a: int, b: int| 0 <= a < b < n ==> #[trigger] pair_before(map, ps@[a], ps@[b]),
            out@.len() == i,
            forall|t: int| 0 <= t < i ==> (#[trigger] out@[t]).from@ == map.cities@[ps@[t].0 as int].id@
                && out@[t].to@ == map.cities@[ps@[t].1 as int].id@,
            edges_cost(map, out@) == pairs_cost(map, ps@.subrange(0, i as int)),
        decreases n - i,
    {
        let (a, b) = ps[i];
        proof {
            assert(ps@[i as int] == (a, b));
        }
        let from = map.cities[a].id.as_str().to_owned();
        let to = map.cities[b].id.as_str().to_owned();
        let ghost before = out@;
        out.push(ConnectionEdge { from, to });
        proof {
            assert(out@.drop_last() =~= before);
            lemma_id_pos_of(map, a as int);
            lemma_id_pos_of(map, b as int);
            assert(ps@.subrange(0, i + 1).drop_last() =~= ps@.subrange(0, i as int));
            assert(ps@.subrange(0, i + 1).last() == (a, b));
        }
        i = i + 1;
    }
    proof {
        assert(ps@.subrange(0, n as int) =~= ps@);
        lemma_pairs_cost_perm(map, ps@, input);
        assert forall|i: int| 0 <= i < out@.len() implies edge_on_board(map, #[trigger] out@[i]) by {
            let (a, b) = ps@[i];
            assert(map.cities@[a as int].id@ == out@[i].from@);
            assert(map.cities@[b as int].id@ == out@[i].to@);
            assert(lex_lt(map.cities@[a as int].id@, map.cities@[b as int].id@));
            assert(linked(map, a as int, b as int) || linked(map, b as int, a as int));
        }
        assert forall|x: (usize, usize)| #[trigger] input.contains(x) implies exists|i: int| 0 <= i < out@.len()
            && (#[trigger] out@[i]).from@ == map.cities@[x.0 as int].id@ && out@[i].to@ == map.cities@[x.1 as int].id@ by {
            broadcast use vstd::seq_lib::to_multiset_contains;
            assert(input.to_multiset().count(x) > 0);
            assert(ps@.to_multiset().count(x) > 0);
            assert(ps@.contains(x));
            let t = choose|t: int| 0 <= t < ps@.len() && ps@[t] == x;
            assert(out@[t].from@ == map.cities@[ps@[t].0 as int].id@);
        }
        assert forall|i: int, j: int| 0 <= i < j < out@.len() implies edge_lt(#[trigger] out@[i], #[trigger] out@[j]) by {
            assert(pair_before(map, ps@[i], ps@[j]));
            assert(out@[i].from@ == map.cities@[ps@[i].0 as int].id@ && out@[i].to@ == map.cities@[ps@[i].1 as int].id@);
            assert(out@[j].from@ == map.cities@[ps@[j].0 as int].id@ && out@[j].to@ == map.cities@[ps@[j].1 as int].id@);
        }
    }
    out
}

/// `p` sorts before `q` by the ids of their cities.
pub open spec fn pair_before(map: &GameMap, p: (usize, usize), q: (usize, usize)) -> bool {
    let (pa, pb) = (map.cities@[p.0 as int].id@, map.cities@[p.1 as int].id@);
    let (qa, qb) = (map.cities@[q.0 as int].id@, map.cities@[q.1 as int].id@);
    lex_lt(pa, qa) || (pa == qa && lex_lt(pb, qb))
}

proof fn lemma_pair_before_trans(map: &GameMap, p: (usize, usize), q: (usize, usize), r: (usize, usize))
    requires
        pair_before(map, p, q),
        pair_before(map, q, r),
    ensures
        pair_before(map, p, r),
{
    let (pa, pb) = (map.cities@[p.0 as int].id@, map.cities@[p.1 as int].id@);
    let (qa, qb) = (map.cities@[q.0 as int].id@, map.cities@[q.1 as int].id@);
    let (ra, rb) = (map.cities@[r.0 as int].id@, map.cities@[r.1 as int].id@);
    lemma_lex_lt_irreflexive(pa);
    lemma_lex_lt_irreflexive(qa);
    if lex_lt(pa, qa) && lex_lt(qa, ra) {
        lemma_lex_lt_transitive(pa, qa, ra);
    }
    if pa == qa && qa == ra {
        lemma_lex_lt_transitive(pb, qb, rb);
    }
}

/// Two distinct pairs of a valid list are ordered one way or the other.
proof fn lemma_pair_before_total(map: &GameMap, ps: Seq<(usize, usize)>, i: int, j: int)
    requires
        map.wf(),
        pairs_ok(map, ps),
        0 <= i < ps.len(),
        0 <= j < ps.len(),
        i != j,
    ensures
        pair_before(map, ps[i], ps[j]) || pair_before(map, ps[j], ps[i]),
{
    let p = ps[i];
    let q = ps[j];
    if i < j {
        assert(ps[i] != ps[j]);
    } else {
        assert(ps[j] != ps[i]);
    }
    let (pa, pb) = (map.cities@[p.0 as int].id@, map.cities@[p.1 as int].id@);
    let (qa, qb) = (map.cities@[q.0 as int].id@, map.cities@[q.1 as int].id@);
    lemma_lex_lt_total(pa, qa);
    lemma_lex_lt_total(pb, qb);
    if pa == qa && pb == qb {
        lemma_same_id_same_city(map, p.0 as int, q.0 as int);
        lemma_same_id_same_city(map, p.1 as int, q.1 as int);
    }
}

proof fn lemma_same_id_same_city(map: &GameMap, a: int, b: int)
    requires
        map.wf(),
        0 <= a < map.cities@.len(),
        0 <= b < map.cities@.len(),
        map.cities@[a].id@ == map.cities@[b].id@,
    ensures
        a == b,
{
    if a < b {
        assert(map.cities[a].id@ != map.cities[b].id@);
    } else if b < a {
        assert(map.cities[b].id@ != map.cities[a].id@);
    }
}

/// Moving one pair within a valid list keeps it valid.
proof fn lemma_insert_pairs_ok(map: &GameMap, before: Seq<(usize, usize)>, k: int, j: int)
    requires
        pairs_ok(map, before),
        0 <= j <= k < before.len(),
    ensures
        pairs_ok(map, before.remove(k).insert(j, before[k])),
        before.remove(k).insert(j, before[k]).to_multiset() == before.to_multiset(),
{
    let e = before[k];
    let mid = before.remove(k);
    let ov = mid.insert(j, e);
    assert(ov.to_multiset() == before.to_multiset()) by {
        broadcast use vstd::seq_lib::to_multiset_insert;
        broadcast use vstd::seq_lib::to_multiset_remove;
        broadcast use vstd::multiset::group_multiset_axioms;
        assert(before.remove(k).to_multiset() == before.to_multiset().remove(e));
        assert(ov.to_multiset() == mid.to_multiset().insert(e));
        assert(before.to_multiset().contains(e)) by {
            broadcast use vstd::seq_lib::to_multiset_contains;
            assert(before.contains(e));
        }
        assert(ov.to_multiset() =~= before.to_multiset());
    }
    // Positions of the moved list in the old one.
    let pos = |x: int| if x < j { if x < k { x } else { x + 1 } } else if x == j { k } else if x <= k { x - 1 } else { x };
    assert forall|x: int| 0 <= x < ov.len() implies #[trigger] ov[x] == before[pos(x)] by {
        if x < j {
            assert(ov[x] == mid[x]);
        } else if x > j {
            assert(ov[x] == mid[x - 1]);
        }
    }
    assert forall|x: int, y: int| 0 <= x < y < ov.len() implies #[trigger] ov[x] != #[trigger] ov[y] by {
        assert(ov[x] == before[pos(x)] && ov[y] == before[pos(y)]);
        assert(pos(x) != pos(y));
        if pos(x) < pos(y) {
            assert(before[pos(x)] != before[pos(y)]);
        } else {
            assert(before[pos(y)] != before[pos(x)]);
        }
    }
    assert forall|x: int| 0 <= x < ov.len() implies {
        let (a, b) = #[trigger] ov[x];
        &&& (a as int) < map.cities@.len()
        &&& (b as int) < map.cities@.len()
        &&& lex_lt(map.cities@[a as int].id@, map.cities@[b as int].id@)
        &&& (linked(map, a as int, b as int) || linked(map, b as int, a as int))
    } by {
        assert(ov[x] == before[pos(x)]);
    }
}

/// Some connection of `edges` joins the cities with ids `x` and `y`.
pub open spec fn edge_between(edges: Seq<ConnectionEdge>, x: Seq<char>, y: Seq<char>) -> bool {
    exists|i: int| 0 <= i < edges.len() && ((#[trigger] edges[i]).from@ == x && edges[i].to@ == y || edges[i].from@ == y && edges[i].to@ == x)
}

/// The connections of `edges` join the cities with ids `x` and `y`: a walk
/// from one to the other along them.
pub open spec fn edges_join(edges: Seq<ConnectionEdge>, x: Seq<char>, y: Seq<char>) -> bool {
    exists|w: Seq<Seq<char>>| {
        &&& w.len() >= 1
        &&& w[0] == x
        &&& w.last() == y
        &&& forall|i: int| 0 <= i < w.len() - 1 ==> #[trigger] edge_between(edges, w[i], w[i + 1])
    }
}

/// The connections join the city with id `x` to one of the player's cities.
pub open spec fn joined_to_owned(edges: Seq<ConnectionEdge>, x: Seq<char>, owned: Seq<String>) -> bool {
    exists|o: int| 0 <= o < owned.len() && #[trigger] edges_join(edges, x, owned[o]@)
}

/// The connections join every target to one of the player's cities or, for
/// a player with no city, all targets to one common city.
pub open spec fn joins_all(edges: Seq<ConnectionEdge>, targets: Seq<String>, owned: Seq<String>) -> bool {
    if owned.len() > 0 {
        forall|j: int| 0 <= j < targets.len() ==> #[trigger] joined_to_owned(edges, targets[j]@, owned)
    } else {
        exists|hub: Seq<char>| #[trigger] joined_to_hub(edges, targets, hub)
    }
}

/// The connections join every target to the city with id `hub`.
pub open spec fn joined_to_hub(edges: Seq<ConnectionEdge>, targets: Seq<String>, hub: Seq<char>) -> bool {
    forall|j: int| 0 <= j < targets.len() ==> #[trigger] edges_join(edges, targets[j]@, hub)
}

/// A walk over the pairs is a walk over their connections, city by city.
proof fn lemma_pairs_to_edges(map: &GameMap, ps: Seq<(usize, usize)>, edges: Seq<ConnectionEdge>, u: int, v: int)
    requires
        joined(ps, u, v),
        forall|x: (usize, usize)| #[trigger] ps.contains(x) ==> exists|i: int| 0 <= i < edges.len()
            && (#[trigger] edges[i]).from@ == map.cities@[x.0 as int].id@ && edges[i].to@ == map.cities@[x.1 as int].id@,
    ensures
        edges_join(edges, map.cities@[u].id@, map.cities@[v].id@),
{
    let w = choose|w: Seq<int>| #[trigger] pair_walk(ps, w) && w[0] == u && w.last() == v;
    let ids = w.map_values(|c: int| map.cities@[c].id@);
    assert forall|i: int| 0 <= i < ids.len() - 1 implies #[trigger] edge_between(edges, ids[i], ids[i + 1]) by {
        assert(has_pair(ps, w[i], w[i + 1]));
        let a = w[i];
        let b = w[i + 1];
        if ps.contains((a as usize, b as usize)) {
            let x = (a as usize, b as usize);
            let e = choose|e: int| 0 <= e < edges.len() && (#[trigger] edges[e]).from@ == map.cities@[x.0 as int].id@
                && edges[e].to@ == map.cities@[x.1 as int].id@;
            assert(edges[e].from@ == ids[i] && edges[e].to@ == ids[i + 1]);
        } else {
            let x = (b as usize, a as usize);
            assert(ps.contains(x));
            let e = choose|e: int| 0 <= e < edges.len() && (#[trigger] edges[e]).from@ == map.cities@[x.0 as int].id@
                && edges[e].to@ == map.cities@[x.1 as int].id@;
            assert(edges[e].from@ == ids[i + 1] && edges[e].to@ == ids[i]);
        }
    }
    assert(ids[0] == map.cities@[u].id@);
    assert(ids.last() == map.cities@[v].id@);
}

/// Every target is the city of one of the target positions.
proof fn lemma_targets_listed(map: &GameMap, targets: Seq<Seq<char>>, j: int)
    requires
        target_nodes(map, targets) is Some,
        0 <= j < targets.len(),
    ensures
        exists|i: int| 0 <= i < target_nodes(map, targets)->Some_0.len()
            && map.cities@[#[trigger] target_nodes(map, targets)->Some_0[i]].id@ == targets[j]
            && 0 <= target_nodes(map, targets)->Some_0[i] < map.cities@.len(),
    decreases targets.len(),
{
    let prev = target_nodes(map, targets.drop_last())->Some_0;
    let t = target_nodes(map, targets)->Some_0;
    let p = map.id_pos(targets.last())->Some_0;
    assert(map.cities[p].id@ == targets.last());
    if j < targets.len() - 1 {
        assert(targets.drop_last()[j] == targets[j]);
        lemma_targets_listed(map, targets.drop_last(), j);
        let i = choose|i: int| 0 <= i < prev.len() && map.cities@[#[trigger] prev[i]].id@ == targets.drop_last()[j]
            && 0 <= prev[i] < map.cities@.len();
        if prev.contains(p) {
            assert(t == prev);
        } else {
            assert(t == prev.push(p));
            assert(t[i] == prev[i]);
        }
    } else {
        if prev.contains(p) {
            let i = choose|i: int| 0 <= i < prev.len() && prev[i] == p;
            assert(t[i] == p);
        } else {
            assert(t[prev.len() as int] == p);
        }
    }
}

/// The cost of reaching each city from the network `owned` (0 everywhere
/// for no city), with the search's parents; `None` when `owned` has cities
/// but none on the board.
fn root_costs(map: &GameMap, owned: &[String]) -> (r: Option<(Vec<u32>, Vec<Option<usize>>, Ghost<Seq<nat>>)>)
    requires
        map.wf(),
    ensures
        match r {
            None => owned@.len() > 0 && forall|v: int| 0 <= v < map.cities@.len() ==> !(#[trigger] map.owned_sources(id_views(owned@))[v]),
            Some(x) => {
                &&& owned@.len() > 0 ==> exists|v: int| 0 <= v < map.cities@.len() && #[trigger] map.owned_sources(id_views(owned@))[v]
                &&& root_ok(map, id_views(owned@), x.0@)
                &&& x.0@.len() == map.cities@.len()
                &&& forall|v: int| 0 <= v < map.cities@.len() ==> #[trigger] x.0@[v] <= INF
                &&& owned@.len() > 0 ==> parents_ok(map.edges@, owned_start(map, id_views(owned@)), x.0@, x.1@, x.2@)
                &&& owned@.len() == 0 ==> x.1@ == Seq::new(map.cities@.len() as nat, |v: int| None::<usize>)
            },
        },
{
    let n = map.cities.len();
    if owned.len() == 0 {
        let root = constant_row(n, 0u32);
        proof {
            assert(id_views(owned@).len() == 0);
        }
        return Some((root, constant_row(n, None::<usize>), Ghost(Seq::new(n as nat, |v: int| 0nat))));
    }
    match owned_costs(map, owned) {
        None => None,
        Some(pot) => {
            proof {
                assert(id_views(owned@).len() > 0);
                assert forall|v: int| 0 <= v < pot@.len() implies #[trigger] pot@[v] <= INF by {}
            }
            let x = closure(map, &pot);
            Some(x)
        },
    }
}

/// The cheapest join of the network of `row` to the player's over all
/// cities, and the city where it is made (among the cheapest, the one whose
/// id sorts first).
fn best_join(map: &GameMap, row: &Vec<u32>, root: &Vec<u32>) -> (r: (u32, usize))
    requires
        row@.len() == map.cities@.len(),
        root@.len() == map.cities@.len(),
        forall|w: int| 0 <= w < row@.len() ==> #[trigger] row@[w] <= INF,
        forall|w: int| 0 <= w < root@.len() ==> #[trigger] root@[w] <= INF,
    ensures
        r.0 as nat == cheapest_join(row@, root@, map.cities@.len() as int),
        r.0 <= INF,
        r.0 < INF ==> (r.1 as int) < map.cities@.len() && row@[r.1 as int] < INF && root@[r.1 as int] < INF
            && r.0 == row@[r.1 as int] + root@[r.1 as int],
{
    let n = map.cities.len();
    let mut best_end: Option<usize> = None;
    let mut best_cost: u32 = INF;
    let mut v: usize = 0;
    while v < n
        invariant
            n == map.cities@.len(),
            row@.len() == n,
            root@.len() == n,
            v <= n,
            forall|w: int| 0 <= w < n ==> #[trigger] row@[w] <= INF,
            forall|w: int| 0 <= w < n ==> #[trigger] root@[w] <= INF,
            best_cost as nat == cheapest_join(row@, root@, v as int),
            best_cost <= INF,
            best_end is Some <==> best_cost < INF,
            best_end matches Some(e) ==> e < n && row@[e as int] < INF && root@[e as int] < INF
                && best_cost == row@[e as int] + root@[e as int],
        decreases n - v,
    {
        let a = row[v];
        let b = root[v];
        if a < INF && b < INF {
            let total = a + b;
            let take = match best_end {
                None => total < best_cost,
                Some(e) => total < best_cost || (total == best_cost
                    && str_lt(map.cities[v].id.as_str(), map.cities[e].id.as_str())),
            };
            if take {
                best_cost = total;
                best_end = Some(v);
            }
        }
        v = v + 1;
    }
    match best_end {
        None => (INF, 0),
        Some(e) => (best_cost, e),
    }
}

/// How the cheapest forest of subset `m` was found: two smaller parts, each
/// joined on its own, or one network ending at `end` joined to the
/// player's there.
pub open spec fn forest_trace(tab: Seq<Seq<u32>>, root: Seq<u32>, m: int, part: Option<(usize, usize)>, end: usize, fc: Seq<u32>, n: int) -> bool {
    match part {
        Some((a, b)) => 1 <= a < m && 1 <= b < m && a & (m as usize) == a && b == (m as usize) ^ a
            && fc[a as int] < INF && fc[b as int] < INF && fc[m] == fc[a as int] + fc[b as int],
        None => (end as int) < n && tab[m][end as int] < INF && root[end as int] < INF
            && fc[m] == tab[m][end as int] + root[end as int],
    }
}

/// The cheapest forest for every subset up to `full`, with how each was
/// found.
fn forest_costs(map: &GameMap, dp: &Vec<Vec<u32>>, root: &Vec<u32>, full: usize, Ghost(tab): Ghost<Seq<Seq<u32>>>)
    -> (r: (Vec<u32>, Vec<Option<(usize, usize)>>, Vec<usize>))
    requires
        tab == rows_of(dp@),
        full < dp@.len(),
        full < usize::MAX,
        root@.len() == map.cities@.len(),
        forall|m: int| 0 <= m < dp@.len() ==> (#[trigger] dp@[m])@.len() == map.cities@.len(),
        forall|m: int, v: int| 0 <= m < dp@.len() && 0 <= v < map.cities@.len() ==> #[trigger] dp@[m]@[v] <= INF,
        forall|w: int| 0 <= w < root@.len() ==> #[trigger] root@[w] <= INF,
    ensures
        r.0@.len() == full + 1,
        r.1@.len() == full + 1,
        r.2@.len() == full + 1,
        forall|m: int| 1 <= m <= full ==> (#[trigger] r.0@[m]) as nat == forest_cost(tab, root@, map.cities@.len() as int, m as usize),
        forall|m: int| 0 <= m <= full ==> #[trigger] r.0@[m] <= INF,
        forall|m: int| 1 <= m <= full && r.0@[m] < INF ==> forest_trace(tab, root@, m, #[trigger] r.1@[m], r.2@[m], r.0@, map.cities@.len() as int),
{
    let n = map.cities.len();
    let mut fr: Vec<u32> = Vec::new();
    fr.push(INF);
    let mut parts: Vec<Option<(usize, usize)>> = Vec::new();
    parts.push(None);
    let mut ends: Vec<usize> = Vec::new();
    ends.push(0);
    let mut s: usize = 1;
    while s <= full
        invariant
            tab == rows_of(dp@),
            n == map.cities@.len(),
            full < dp@.len(),
            full < usize::MAX,
            root@.len() == n,
            forall|m: int| 0 <= m < dp@.len() ==> (#[trigger] dp@[m])@.len() == n,
            forall|m: int, v: int| 0 <= m < dp@.len() && 0 <= v < n ==> #[trigger] dp@[m]@[v] <= INF,
            forall|w: int| 0 <= w < n ==> #[trigger] root@[w] <= INF,
            1 <= s <= full + 1,
            fr@.len() == s,
            parts@.len() == s,
            ends@.len() == s,
            forall|m: int| 1 <= m < s ==> (#[trigger] fr@[m]) as nat == forest_cost(tab, root@, n as int, m as usize),
            forall|m: int| 0 <= m < s ==> #[trigger] fr@[m] <= INF,
            forall|m: int| 1 <= m < s && fr@[m] < INF ==> forest_trace(tab, root@, m, #[trigger] parts@[m], ends@[m], fr@, n as int),
        decreases full + 1 - s,
    {
        // The cheapest split of `s` into two parts joined separately.
        let mut acc: u32 = INF;
        let mut pick: Option<(usize, usize)> = None;
        let mut j: usize = s;
        while j > 1
            invariant
                1 <= j <= s,
                s < dp@.len(),
                fr@.len() == s,
                forall|m: int| 1 <= m < s ==> (#[trigger] fr@[m]) as nat == forest_cost(tab, root@, n as int, m as usize),
                forall|m: int| 0 <= m < s ==> #[trigger] fr@[m] <= INF,
                acc as nat == forest_split(tab, root@, n as int, s, j as int),
                acc <= INF,
                acc < INF ==> (pick matches Some((a, b)) && 1 <= a < s && 1 <= b < s && a & s == a && b == s ^ a
                    && fr@[a as int] < INF && fr@[b as int] < INF && acc == fr@[a as int] + fr@[b as int]),
            decreases j,
        {
            j = j - 1;
            let o = s ^ j;
            if j & s == j && j <= o && o != 0 && o < s {
                let a = fr[j];
                let b = fr[o];
                if a < INF && b < INF {
                    let c = a + b;
                    if c < acc {
                        acc = c;
                        pick = Some((j, o));
                    }
                }
            }
        }
        let row = &dp[s];
        proof {
            assert(row@ == tab[s as int]);
            assert forall|w: int| 0 <= w < row@.len() implies #[trigger] row@[w] <= INF by {
                assert(dp@[s as int]@[w] <= INF);
            }
        }
        let (cj, e) = best_join(map, row, root);
        let ghost before = fr@;
        if cj <= acc {
            fr.push(cj);
            parts.push(None);
            ends.push(e);
        } else {
            fr.push(acc);
            parts.push(pick);
            ends.push(0);
        }
        proof {
            assert(fr@[s as int] as nat == forest_cost(tab, root@, n as int, s));
            assert forall|m: int| 1 <= m < s + 1 && fr@[m] < INF implies forest_trace(tab, root@, m, #[trigger] parts@[m], ends@[m], fr@, n as int) by {
                if m < s {
                    assert(fr@[m] == before[m]);
                    assert(forest_trace(tab, root@, m, parts@[m], ends@[m], before, n as int));
                    if let Some((a, b)) = parts@[m] {
                        assert(fr@[a as int] == before[a as int]);
                        assert(fr@[b as int] == before[b as int]);
                    }
                } else {
                    if let Some((a, b)) = parts@[m] {
                        assert(fr@[a as int] == before[a as int]);
                        assert(fr@[b as int] == before[b as int]);
                    }
                }
            }
        }
        s = s + 1;
    }
    (fr, parts, ends)
}

/// Adds the connections of the cheapest forest recorded for subset `mask`:
/// both parts of a split, else the part's network and the route from its
/// end to the player's network.
fn collect_forest(
    map: &GameMap,
    joins: &Vec<Vec<Option<(usize, usize)>>>,
    parents: &Vec<Vec<Option<usize>>>,
    root_parent: &Vec<Option<usize>>,
    parts: &Vec<Option<(usize, usize)>>,
    ends: &Vec<usize>,
    mask: usize,
    pairs: &mut Vec<(usize, usize)>,
    Ghost(times): Ghost<Seq<Seq<nat>>>,
    Ghost(tab): Ghost<Seq<Seq<u32>>>,
    Ghost(terms): Ghost<Seq<int>>,
    Ghost(fc): Ghost<Seq<u32>>,
    Ghost(root_time): Ghost<Seq<nat>>,
    Ghost(root): Ghost<Seq<u32>>,
    Ghost(start): Ghost<Seq<u32>>,
)
    requires
        map.wf(),
        trace_ok(map, joins@, parents@, times),
        1 <= mask,
        (mask as int) < joins@.len(),
        pairs_ok(map, old(pairs)@),
        terms.len() < usize::BITS,
        tab.len() >= joins@.len(),
        forall|m: int| 1 <= m < joins@.len() ==> #[trigger] row_trace(tab, terms, m, joins@[m]@, parents@[m]@, map.cities@.len() as int),
        parts@.len() == joins@.len(),
        ends@.len() == joins@.len(),
        fc.len() == joins@.len(),
        fc[mask as int] < INF,
        forall|m: int| 1 <= m < parts@.len() && fc[m] < INF ==> forest_trace(tab, root, m, #[trigger] parts@[m], ends@[m], fc, map.cities@.len() as int),
        forall|m: int| 1 <= m < joins@.len() ==> #[trigger] parent_costs(map, tab, m, parents@[m]@),
        root_parent@.len() == map.cities@.len(),
        root_time.len() == map.cities@.len(),
        root.len() == map.cities@.len(),
        start.len() == map.cities@.len(),
        forall|w: int| 0 <= w < map.cities@.len() ==> match #[trigger] root_parent@[w] {
            None => root[w] == start[w],
            Some(u) => (u as int) < map.cities@.len() && root_time[u as int] < root_time[w] && linked(map, u as int, w) && root[u as int] < INF
                && exists|k: int| 0 <= k < map.edges@[u as int]@.len() && (#[trigger] map.edges@[u as int]@[k]).0 == w
                    && root[w] == root[u as int] + map.edges@[u as int]@[k].1,
        },
    ensures
        pairs_ok(map, final(pairs)@),
        pairs_within(old(pairs)@, final(pairs)@),
        forall|i: int| 0 <= i < terms.len() && #[trigger] has_target(mask, i) ==> exists|u: int|
            0 <= u < map.cities@.len() && start[u] < INF && #[trigger] joined(final(pairs)@, terms[i], u),
        pairs_cost(map, final(pairs)@) <= pairs_cost(map, old(pairs)@) + fc[mask as int],
    decreases mask,
{
    let ghost p0 = pairs@;
    proof {
        assert(forest_trace(tab, root, mask as int, parts@[mask as int], ends@[mask as int], fc, map.cities@.len() as int));
    }
    match parts[mask] {
        Some((a, b)) => {
            collect_forest(map, joins, parents, root_parent, parts, ends, a, pairs, Ghost(times), Ghost(tab), Ghost(terms),
                Ghost(fc), Ghost(root_time), Ghost(root), Ghost(start));
            let ghost p1 = pairs@;
            collect_forest(map, joins, parents, root_parent, parts, ends, b, pairs, Ghost(times), Ghost(tab), Ghost(terms),
                Ghost(fc), Ghost(root_time), Ghost(root), Ghost(start));
            proof {
                assert forall|x: (usize, usize)| p0.contains(x) implies #[trigger] pairs@.contains(x) by {
                    assert(p1.contains(x));
                }
                assert forall|i: int| 0 <= i < terms.len() && #[trigger] has_target(mask, i) implies exists|u: int|
                    0 <= u < map.cities@.len() && start[u] < INF && #[trigger] joined(pairs@, terms[i], u) by {
                    lemma_split_targets(mask, a, i);
                    if has_target(a, i) {
                        let u = choose|u: int| 0 <= u < map.cities@.len() && start[u] < INF && #[trigger] joined(p1, terms[i], u);
                        lemma_joined_mono(p1, pairs@, terms[i], u);
                    }
                }
            }
        },
        None => {
            let e = ends[mask];
            proof {
                assert(tab[mask as int][e as int] < INF);
            }
            collect_pairs(map, joins, parents, mask, e, pairs, Ghost(times), Ghost(tab), Ghost(terms));
            let ghost p1 = pairs@;
            add_root_path(map, root_parent, e, pairs, Ghost(root_time), Ghost(root), Ghost(start));
            proof {
                assert forall|x: (usize, usize)| p0.contains(x) implies #[trigger] pairs@.contains(x) by {
                    assert(p1.contains(x));
                }
                let u = choose|u: int| 0 <= u < map.cities@.len() && start[u] < INF && #[trigger] joined(pairs@, e as int, u);
                assert forall|i: int| 0 <= i < terms.len() && #[trigger] has_target(mask, i) implies exists|u: int|
                    0 <= u < map.cities@.len() && start[u] < INF && #[trigger] joined(pairs@, terms[i], u) by {
                    lemma_joined_mono(p1, pairs@, terms[i], e as int);
                    lemma_joined_trans(pairs@, terms[i], e as int, u);
                }
            }
        },
    }
}

impl GameMap {
    /// The cheapest network joining every city of `target_cities` to the
    /// network `owned_cities` (each target to any of its cities), or, for a
    /// player with no city, the targets to each other; with its
    /// connections. `None` when a target is not a city of the board, when
    /// there are as many distinct targets as a `usize` has bits, when none
    /// of a non-empty `owned_cities` is on the board, or when no such
    /// network costs less than `INF`. No set of the board's connections
    /// that joins the targets so costs less (`lemma_network_cost_least`),
    /// and on a symmetric board, as every board built from map data is, the
    /// returned connections cost exactly the route cost: a cheapest such set.
    pub fn connection_network_for(&self, owned_cities: &[String], target_cities: &[String]) -> (r: Option<ConnectionNetwork>)
        requires
            self.wf(),
        ensures
            target_cities@.len() == 0 ==> (r matches Some(net) && net.route_cost == 0 && net.edges@.len() == 0),
            r matches Some(net) ==> edges_ok(self, net.edges@),
            r matches Some(net) ==> edges_cost(self, net.edges@) <= net.route_cost,
            symmetric(self) ==> (r matches Some(net) ==> edges_cost(self, net.edges@) == net.route_cost),
            r is Some ==> joins_all(r->Some_0.edges@, target_cities@, owned_cities@),
            target_cities@.len() > 0 ==> match target_nodes(self, id_views(target_cities@)) {
                None => r is None,
                Some(term) => if term.len() >= usize::BITS {
                    r is None
                } else if owned_cities@.len() > 0 && forall|v: int| 0 <= v < self.cities@.len()
                    ==> !(#[trigger] self.owned_sources(id_views(owned_cities@))[v]) {
                    r is None
                } else {
                    network_cost_ok(self, id_views(owned_cities@), term, match r {
                        Some(net) => Some(net.route_cost),
                        None => None,
                    })
                },
            },
    {
        if target_cities.len() == 0 {
            let net = ConnectionNetwork { route_cost: 0, edges: Vec::new() };
            proof {
                if owned_cities@.len() == 0 {
                    let hub: Seq<char> = seq![];
                    assert(joined_to_hub(net.edges@, target_cities@, hub));
                }
                assert(joins_all(net.edges@, target_cities@, owned_cities@));
            }
            let ghost e = net.edges@;
            let r = Some(net);
            proof {
                assert(r->Some_0.edges@ == e);
            }
            return r;
        }
        let term = match positions_of_targets(self, target_cities) {
            None => return None,
            Some(t) => t,
        };
        let k = term.len();
        if k >= usize::BITS as usize {
            return None;
        }
        let n = self.cities.len();
        let ghost g = self.edges@;
        let ghost terms = term_nodes(term@);
        proof {
            lemma_map_graph(self);
        }
        // Costs of reaching each city from the player's network.
        let (root, root_parent, root_time) = match root_costs(self, owned_cities) {
            None => return None,
            Some(x) => x,
        };
        // The subset table, one row per subset of the targets.
        let one_k: usize = 1usize << k;
        proof {
            assert((k as usize) < usize::BITS ==> (1usize << (k as usize)) >= 1usize) by (bit_vector);
        }
        let full: usize = one_k - 1;
        proof {
            assert(full == all_targets(k as int));
            lemma_target_nodes_nonempty(self, id_views(target_cities@));
            assert(k >= 1);
            assert((k as usize) >= 1usize && (k as usize) < usize::BITS ==> (1usize << (k as usize)) >= 2usize) by (bit_vector);
        }
        let mut dp: Vec<Vec<u32>> = Vec::new();
        dp.push(constant_row(n, INF));
        let mut joins: Vec<Vec<Option<(usize, usize)>>> = Vec::new();
        joins.push(constant_row(n, None::<(usize, usize)>));
        let mut parents: Vec<Vec<Option<usize>>> = Vec::new();
        parents.push(constant_row(n, None::<usize>));
        let ghost mut times: Seq<Seq<nat>> = seq![Seq::new(n as nat, |v: int| 0nat)];
        let mut mask: usize = 1;
        while mask <= full
            invariant
                self.wf(),
                graph_ok(g),
                g == self.edges@,
                n == self.cities@.len(),
                n == g.len(),
                terms == term_nodes(term@),
                term@.len() == k,
                k < usize::BITS,
                forall|i: int| 0 <= i < term@.len() ==> (#[trigger] term@[i] as int) < n,
                full < usize::MAX,
                full >= 1,
                full == all_targets(k as int),
                terms.len() == k,
                root_ok(self, id_views(owned_cities@), root@),
                root@.len() == n,
                forall|w: int| 0 <= w < n ==> #[trigger] root@[w] <= INF,
                1 <= mask <= full + 1,
                dp@.len() == mask,
                joins@.len() == mask,
                parents@.len() == mask,
                times.len() == mask,
                forall|m: int| 0 <= m < dp@.len() ==> (#[trigger] dp@[m])@.len() == n,
                forall|m: int, v: int| 0 <= m < dp@.len() && 0 <= v < n ==> #[trigger] dp@[m]@[v] <= INF,
                table_ok(g, terms, rows_of(dp@), mask as int),
                forall|m: int| 1 <= m < joins@.len() ==> joins_ok((#[trigger] joins@[m])@, m as usize) && joins@[m]@.len() == n,
                joins@[0]@ == Seq::new(n as nat, |v: int| None::<(usize, usize)>),
                parents@[0]@ == Seq::new(n as nat, |v: int| None::<usize>),
                times[0].len() == n,
                forall|m: int| 1 <= m < parents@.len() ==> parents_ok(g, merge_row(rows_of(dp@), terms, m as usize, n as int),
                    dp@[m]@, (#[trigger] parents@[m])@, times[m]),
                forall|m: int| 1 <= m < mask ==> #[trigger] row_trace(rows_of(dp@), terms, m, joins@[m]@, parents@[m]@, n as int),
            decreases full + 1 - mask,
        {
            let (row, from) = merge_costs(n, &term, &dp, mask);
            proof {
                assert forall|v: int| 0 <= v < row@.len() implies #[trigger] row@[v] <= INF by {
                    lemma_best_split_bound(rows_of(dp@), mask, v, 1);
                }
            }
            let (drow, parent, time) = closure(self, &row);
            let ghost from0 = from@;
            let mut from = from;
            let mut v: usize = 0;
            while v < n
                invariant
                    v <= n,
                    from@.len() == n,
                    parent@.len() == n,
                    from0.len() == n,
                    joins_ok(from@, mask),
                    forall|w: int| 0 <= w < n ==> #[trigger] from@[w] == (if w < v && parent@[w] is Some { None } else { from0[w] }),
                decreases n - v,
            {
                if parent[v].is_some() {
                    from.set(v, None);
                }
                v = v + 1;
            }
            let ghost before = rows_of(dp@);
            let ghost pre_dp = dp@;
            dp.push(drow);
            joins.push(from);
            parents.push(parent);
            proof {
                times = times.push(time@);
                let after = rows_of(dp@);
                assert forall|m: int| 0 <= m < mask implies #[trigger] after[m] == before[m] by {
                    assert(dp@[m] == pre_dp[m]);
                }
                assert forall|m: int| 1 <= m < mask + 1 implies #[trigger] closure_ok(g, merge_row(after, terms, m as usize, n as int), after[m]) by {
                    lemma_merge_row_agree(after, before, terms, m as usize, n as int);
                    if m < mask {
                        assert(closure_ok(g, merge_row(before, terms, m as usize, n as int), before[m]));
                    } else {
                        assert(after[m] == drow@);
                    }
                }
                assert forall|m: int| 1 <= m < parents@.len() implies parents_ok(g, merge_row(after, terms, m as usize, n as int),
                    dp@[m]@, (#[trigger] parents@[m])@, times[m]) by {
                    lemma_merge_row_agree(after, before, terms, m as usize, n as int);
                    if m < mask {
                        assert(dp@[m] == pre_dp[m]);
                    }
                }
                assert forall|m: int| 1 <= m < mask + 1 implies #[trigger] row_trace(after, terms, m, joins@[m]@, parents@[m]@, n as int) by {
                    if m < mask {
                        assert(row_trace(before, terms, m, joins@[m]@, parents@[m]@, n as int));
                        assert forall|v: int| 0 <= v < n implies {
                            &&& (#[trigger] joins@[m]@[v]) matches Some((l, o)) ==> (0 < l && l & (m as usize) == l && o == (m as usize) ^ l && o != 0
                                && after[l as int][v] < INF && after[o as int][v] < INF && parents@[m]@[v] is None
                                && after[m][v] == after[l as int][v] + after[o as int][v])
                            &&& parents@[m]@[v] matches Some(p) ==> (after[m][v] < INF && after[m][p as int] < INF)
                            &&& (joins@[m]@[v] is None && parents@[m]@[v] is None && after[m][v] < INF) ==> after[m][v] as nat == start_cost(terms, m as usize, v)
                        } by {
                            if let Some((l, o)) = joins@[m]@[v] {
                                lemma_split_parts(m as usize, l);
                            }
                        }
                    } else {
                        let pot = merge_row(before, terms, mask, n as int);
                        assert(after[m] == drow@);
                        assert forall|v: int| 0 <= v < n implies {
                            &&& (#[trigger] joins@[m]@[v]) matches Some((l, o)) ==> (0 < l && l & (m as usize) == l && o == (m as usize) ^ l && o != 0
                                && after[l as int][v] < INF && after[o as int][v] < INF && parents@[m]@[v] is None
                                && after[m][v] == after[l as int][v] + after[o as int][v])
                            &&& parents@[m]@[v] matches Some(p) ==> (after[m][v] < INF && after[m][p as int] < INF)
                            &&& (joins@[m]@[v] is None && parents@[m]@[v] is None && after[m][v] < INF) ==> after[m][v] as nat == start_cost(terms, m as usize, v)
                        } by {
                            assert(joins@[m]@[v] == from@[v]);
                            assert(parents@[m]@[v] == parent@[v]);
                            assert(join_ok(before, terms, mask, v, row@[v], from0[v]));
                            if let Some((l, o)) = joins@[m]@[v] {
                                lemma_split_parts(mask, l);
                                assert(after[l as int] == before[l as int]);
                                assert(after[o as int] == before[o as int]);
                                assert(parent@[v] is None);
                                assert(drow@[v] == row@[v]);
                            }
                            if let Some(p) = parent@[v] {
                                assert(drow@[v] < INF);
                            }
                        }
                    }
                }
            }
            mask = mask + 1;
        }
        let ghost tab = rows_of(dp@);
        let mut pairs: Vec<(usize, usize)> = Vec::new();
        proof {
            assert(trace_ok(self, joins@, parents@, times)) by {
                assert forall|m: int| 0 <= m < joins@.len() implies {
                    &&& (#[trigger] joins@[m])@.len() == n
                    &&& parents@[m]@.len() == n
                    &&& times[m].len() == n
                    &&& forall|v: int| 0 <= v < n ==> match #[trigger] joins@[m]@[v] {
                        None => true,
                        Some((l, o)) => 1 <= l < m && 1 <= o < m,
                    }
                    &&& forall|v: int| 0 <= v < n ==> match #[trigger] parents@[m]@[v] {
                        None => true,
                        Some(u) => (u as int) < n && times[m][u as int] < times[m][v] && linked(self, u as int, v),
                    }
                } by {
                    if m >= 1 {
                        let pot = merge_row(rows_of(dp@), terms, m as usize, n as int);
                        assert(parents_ok(g, pot, dp@[m]@, parents@[m]@, times[m]));
                        assert(joins_ok(joins@[m]@, m as usize));
                        assert forall|v: int| 0 <= v < n implies match #[trigger] parents@[m]@[v] {
                            None => true,
                            Some(u) => (u as int) < n && times[m][u as int] < times[m][v] && linked(self, u as int, v),
                        } by {
                            match parents@[m]@[v] {
                                None => {},
                                Some(u) => {
                                    let k = choose|k: int| 0 <= k < g[u as int]@.len() && (#[trigger] g[u as int]@[k]).0 == v
                                        && dp@[m]@[v] == dp@[m]@[u as int] + g[u as int]@[k].1;
                                    assert(self.edges@[u as int]@[k].0 == v);
                                },
                            }
                        }
                    }
                }
            }
        }
        let ghost start = owned_start(self, id_views(owned_cities@));
        let ghost mut hub: int = 0;
        let route_cost: u32;
        if owned_cities.len() == 0 {
            // One network over all targets.
            let full_row = &dp[full];
            proof {
                assert(tab[full as int] == full_row@);
                assert forall|w: int| 0 <= w < full_row@.len() implies #[trigger] full_row@[w] <= INF by {
                    assert(dp@[full as int]@[w] <= INF);
                }
            }
            let (c, end) = best_join(self, full_row, &root);
            if c >= INF {
                proof {
                    assert(network_cost_ok(self, id_views(owned_cities@), terms, None));
                }
                return None;
            }
            proof {
                assert(network_cost_ok(self, id_views(owned_cities@), terms, Some(c)));
            }
            collect_pairs(self, &joins, &parents, full, end, &mut pairs, Ghost(times), Ghost(tab), Ghost(terms));
            proof {
                hub = end as int;
            }
            route_cost = c;
        } else {
            // The cheapest forest, each part joined to the player's network.
            proof {
                assert forall|w: int| 0 <= w < n implies match #[trigger] root_parent@[w] {
                    None => root@[w] == start[w],
                    Some(u) => (u as int) < n && root_time@[u as int] < root_time@[w] && linked(self, u as int, w) && root@[u as int] < INF,
                } by {
                    match root_parent@[w] {
                        None => {},
                        Some(u) => {
                            let k = choose|k: int| 0 <= k < g[u as int]@.len() && (#[trigger] g[u as int]@[k]).0 == w
                                && root@[w] == root@[u as int] + g[u as int]@[k].1;
                            assert(self.edges@[u as int]@[k].0 == w);
                        },
                    }
                }
            }
            let (fr, parts, ends) = forest_costs(self, &dp, &root, full, Ghost(tab));
            let c = fr[full];
            if c >= INF {
                proof {
                    assert(network_cost_ok(self, id_views(owned_cities@), terms, None));
                }
                return None;
            }
            proof {
                assert(network_cost_ok(self, id_views(owned_cities@), terms, Some(c)));
            }
            collect_forest(self, &joins, &parents, &root_parent, &parts, &ends, full, &mut pairs, Ghost(times), Ghost(tab),
                Ghost(terms), Ghost(fr@), root_time, Ghost(root@), Ghost(start));
            route_cost = c;
        }
        let ghost final_pairs = pairs@;
        let edges = sorted_edges(self, pairs);
        proof {
            if owned_cities@.len() > 0 {
                assert forall|j: int| 0 <= j < target_cities@.len() implies #[trigger] joined_to_owned(edges@, target_cities@[j]@, owned_cities@) by {
                    lemma_targets_listed(self, id_views(target_cities@), j);
                    let i = choose|i: int| 0 <= i < terms.len()
                        && self.cities@[#[trigger] terms[i]].id@ == id_views(target_cities@)[j]
                        && 0 <= terms[i] < self.cities@.len();
                    lemma_all_targets(k as int, i);
                    let u = choose|u: int| 0 <= u < self.cities@.len() && start[u] < INF && #[trigger] joined(final_pairs, terms[i], u);
                    assert(self.owned_sources(id_views(owned_cities@))[u]);
                    let ids = id_views(owned_cities@);
                    assert(ids.contains(self.cities@[u].id@));
                    let o = choose|o: int| 0 <= o < ids.len() && ids[o] == self.cities@[u].id@;
                    lemma_pairs_to_edges(self, final_pairs, edges@, terms[i], u);
                    assert(edges_join(edges@, target_cities@[j]@, owned_cities@[o]@));
                }
            } else {
                let h = self.cities@[hub].id@;
                assert forall|j: int| 0 <= j < target_cities@.len() implies #[trigger] edges_join(edges@, target_cities@[j]@, h) by {
                    lemma_targets_listed(self, id_views(target_cities@), j);
                    let i = choose|i: int| 0 <= i < terms.len()
                        && self.cities@[#[trigger] terms[i]].id@ == id_views(target_cities@)[j]
                        && 0 <= terms[i] < self.cities@.len();
                    lemma_all_targets(k as int, i);
                    lemma_pairs_to_edges(self, final_pairs, edges@, terms[i], hub);
                }
                assert(joined_to_hub(edges@, target_cities@, h));
            }
            assert(joins_all(edges@, target_cities@, owned_cities@));
            assert(network_cost_ok(self, id_views(owned_cities@), terms, Some(route_cost)));
            assert(edges_cost(self, edges@) <= route_cost);
            if symmetric(self) {
                lemma_network_edges_cheapest(self, owned_cities@, target_cities@, terms, route_cost, edges@);
            }
        }
        let ghost e = edges@;
        let r = Some(ConnectionNetwork { route_cost, edges });
        proof {
            assert(r->Some_0.edges@ == e);
        }
        r
    }
}

// ---------------------------------------------------------------------------
// The cost is determined
// ---------------------------------------------------------------------------

/// Least costs from given starting costs are unique.
pub proof fn lemma_closure_unique(g: Graph, pot: Seq<u32>, o1: Seq<u32>, o2: Seq<u32>)
    requires
        closure_ok(g, pot, o1),
        closure_ok(g, pot, o2),
    ensures
        o1 == o2,
{
    assert forall|v: int| 0 <= v < g.len() implies o1[v] == o2[v] by {
        assert(o1[v] <= INF && o2[v] <= INF);
        if o1[v] < INF {
            let (s, st) = choose|s: int, st: Seq<Step>| #[trigger] reaches(g, pot, v, s, st) && reach_cost(g, pot, s, st) == o1[v];
            assert(o2[v] <= reach_cost(g, pot, s, st));
        }
        if o2[v] < INF {
            let (s, st) = choose|s: int, st: Seq<Step>| #[trigger] reaches(g, pot, v, s, st) && reach_cost(g, pot, s, st) == o2[v];
            assert(o1[v] <= reach_cost(g, pot, s, st));
        }
    }
    assert(o1 =~= o2);
}

/// The subset recurrence has one solution: two tables that satisfy it
/// agree on every subset.
pub proof fn lemma_table_unique(g: Graph, term: Seq<int>, t1: Seq<Seq<u32>>, t2: Seq<Seq<u32>>, upto: int, m: int)
    requires
        table_ok(g, term, t1, upto),
        table_ok(g, term, t2, upto),
        1 <= m < upto,
    ensures
        t1[m] == t2[m],
    decreases m,
{
    assert forall|j: int| 1 <= j < m implies #[trigger] t1[j] == t2[j] by {
        lemma_table_unique(g, term, t1, t2, upto, j);
    }
    lemma_merge_row_agree(t1, t2, term, m as usize, g.len() as int);
    assert(closure_ok(g, merge_row(t1, term, m as usize, g.len() as int), t1[m]));
    assert(closure_ok(g, merge_row(t2, term, m as usize, g.len() as int), t2[m]));
    lemma_closure_unique(g, merge_row(t1, term, m as usize, g.len() as int), t1[m], t2[m]);
}

/// The network cost `connection_network_for` promises is determined by the
/// board, the player's cities and the targets: one value, or none.
pub proof fn lemma_network_cost_unique(map: &GameMap, owned: Seq<Seq<char>>, term: Seq<int>, r1: Option<u32>, r2: Option<u32>)
    requires
        1 <= term.len() < usize::BITS,
        network_cost_ok(map, owned, term, r1),
        network_cost_ok(map, owned, term, r2),
    ensures
        r1 == r2,
{
    let full = all_targets(term.len() as int);
    let n = map.cities@.len() as int;
    let (t1, root1) = choose|tab: Seq<Seq<u32>>, root: Seq<u32>| {
        &&& #[trigger] table_ok(map.edges@, term, tab, full + 1)
        &&& #[trigger] root_ok(map, owned, root)
        &&& ({
            let c = network_cost(tab, root, n, full, owned.len() > 0);
            &&& c < INF ==> r1 == Some(c as u32)
            &&& c >= INF ==> r1 is None
        })
    };
    let (t2, root2) = choose|tab: Seq<Seq<u32>>, root: Seq<u32>| {
        &&& #[trigger] table_ok(map.edges@, term, tab, full + 1)
        &&& #[trigger] root_ok(map, owned, root)
        &&& ({
            let c = network_cost(tab, root, n, full, owned.len() > 0);
            &&& c < INF ==> r2 == Some(c as u32)
            &&& c >= INF ==> r2 is None
        })
    };
    let k = term.len() as usize;
    assert(1usize <= k && k < usize::BITS ==> (1usize << k) >= 2usize) by (bit_vector);
    assert forall|m: int| 1 <= m <= full implies #[trigger] t1[m] == t2[m] by {
        lemma_table_unique(map.edges@, term, t1, t2, full + 1, m);
    }
    if owned.len() > 0 {
        lemma_closure_unique(map.edges@, owned_start(map, owned), root1, root2);
        lemma_forest_agree(t1, t2, root1, n, full);
    }
}

// ---------------------------------------------------------------------------
// One target: the network is the connection route
// ---------------------------------------------------------------------------

/// Every connection of the board can be taken both ways at the same cost.
pub open spec fn symmetric(map: &GameMap) -> bool {
    forall|u: int, k: int| 0 <= u < map.edges@.len() && 0 <= k < map.edges@[u]@.len() ==> #[trigger] has_reverse(map, u, k)
}

/// The `k`-th connection of city `u` has a twin leading back at the same cost.
pub open spec fn has_reverse(map: &GameMap, u: int, k: int) -> bool {
    exists|k2: int| #[trigger] reverse_at(map, u, k, k2)
}

pub open spec fn reverse_at(map: &GameMap, u: int, k: int, k2: int) -> bool {
    let w = map.edges@[u]@[k].0 as int;
    &&& 0 <= k2 < map.edges@[w]@.len()
    &&& map.edges@[w]@[k2] == (u as usize, map.edges@[u]@[k].1)
}

proof fn lemma_city_links_all(s: Seq<(usize, u32)>, n: int)
    requires
        forall|e: int| 0 <= e < s.len() ==> (#[trigger] s[e].0 as int) < n,
    ensures
        city_links(s, n) == s,
    decreases s.len(),
{
    if s.len() > 0 {
        lemma_city_links_all(s.drop_last(), n);
        assert(s.drop_last().push(s.last()) =~= s);
    }
}

/// On a board with no waypoints the route nodes are the cities, and the
/// links are the connections between cities.
proof fn lemma_no_waypoints(map: &GameMap, owned: Seq<Seq<char>>, id: Seq<char>)
    requires
        map.wf(),
        map.waypoints.len() == 0,
    ensures
        map.links@.len() == map.edges@.len(),
        forall|u: int| 0 <= u < map.edges@.len() ==> (#[trigger] map.links@[u])@ == map.edges@[u]@,
        map.node_sources(owned) == map.owned_sources(owned),
        map.node_pos(id) == map.id_pos(id),
{
    let n = map.cities.len() as int;
    assert forall|u: int| 0 <= u < map.edges@.len() implies (#[trigger] map.links@[u])@ == map.edges@[u]@ by {
        assert forall|e: int| 0 <= e < map.links@[u]@.len() implies (#[trigger] map.links@[u]@[e].0 as int) < n by {
            assert(map.links[u][e] == map.links@[u]@[e]);
        }
        lemma_city_links_all(map.links@[u]@, n);
        assert(map.edges[u]@ == city_links(map.links[u]@, n));
    }
    assert(map.node_sources(owned) =~= map.owned_sources(owned));
    assert forall|v: int| 0 <= v < map.links.len() implies #[trigger] map.node_id(v) == map.cities[v].id@ by {}
    if exists|i: int| 0 <= i < map.cities.len() && (#[trigger] map.cities[i]).id@ == id {
        let b = choose|i: int| 0 <= i < map.cities.len() && (#[trigger] map.cities[i]).id@ == id;
        assert(map.node_id(b) == id);
        let a = choose|v: int| 0 <= v < map.links.len() && #[trigger] map.node_id(v) == id;
        assert(map.cities[a].id@ == id);
        if a != b {
            if a < b {
                assert(map.cities[a].id@ != map.cities[b].id@);
            } else {
                assert(map.cities[b].id@ != map.cities[a].id@);
            }
        }
    } else {
        if exists|v: int| 0 <= v < map.links.len() && #[trigger] map.node_id(v) == id {
            let a = choose|v: int| 0 <= v < map.links.len() && #[trigger] map.node_id(v) == id;
            assert(map.cities[a].id@ == id);
        }
    }
}

proof fn lemma_walk_is_path(map: &GameMap, start: int, hops: Seq<Step>)
    requires
        map.wf(),
        map.waypoints.len() == 0,
    ensures
        map.is_walk(start, hops) == is_path(map.edges@, start, hops),
        map.is_walk(start, hops) ==> map.walk_end(start, hops) == path_end(map.edges@, start, hops),
        map.is_walk(start, hops) ==> map.walk_cost(hops) == path_cost(map.edges@, hops),
    decreases hops.len(),
{
    let g = map.edges@;
    lemma_no_waypoints(map, seq![], seq![]);
    assert forall|h: Step| #![trigger map.hop_ok(h)] map.hop_ok(h) == step_ok(g, h) by {
        if 0 <= h.0 < g.len() {
            assert(map.links@[h.0]@ == g[h.0]@);
        }
    }
    assert forall|h: Step| #![trigger map.hop_to(h)] 0 <= h.0 < g.len() ==> map.hop_to(h) == step_to(g, h) by {
        if 0 <= h.0 < g.len() {
            assert(map.links@[h.0]@ == g[h.0]@);
        }
    }
    assert forall|h: Step| #![trigger map.hop_cost(h)] 0 <= h.0 < g.len() ==> map.hop_cost(h) == step_cost(g, h) by {
        if 0 <= h.0 < g.len() {
            assert(map.links@[h.0]@ == g[h.0]@);
        }
    }
    if map.is_walk(start, hops) {
        assert forall|i: int| 0 <= i < hops.len() - 1 implies step_to(g, #[trigger] hops[i]) == hops[i + 1].0 by {
            assert(map.hop_ok(hops[i]));
            assert(map.hop_to(hops[i]) == hops[i + 1].0);
        }
    }
    if is_path(g, start, hops) {
        assert forall|i: int| 0 <= i < hops.len() - 1 implies map.hop_to(#[trigger] hops[i]) == hops[i + 1].0 by {
            assert(step_ok(g, hops[i]));
            assert(step_to(g, hops[i]) == hops[i + 1].0);
        }
    }
    if hops.len() > 0 && map.is_walk(start, hops) {
        assert(map.hop_ok(hops[hops.len() - 1]));
        assert(is_path(g, start, hops));
        lemma_path_prefix(g, start, hops);
        lemma_walk_is_path(map, start, hops.drop_last());
        assert(map.hop_cost(hops.last()) == step_cost(g, hops.last()));
        assert(map.hop_to(hops.last()) == step_to(g, hops.last()));
    }
}

proof fn lemma_path_concat(g: Graph, s: int, p1: Seq<Step>, p2: Seq<Step>)
    requires
        is_path(g, s, p1),
        is_path(g, path_end(g, s, p1), p2),
    ensures
        is_path(g, s, p1 + p2),
        path_end(g, s, p1 + p2) == path_end(g, path_end(g, s, p1), p2),
        path_cost(g, p1 + p2) == path_cost(g, p1) + path_cost(g, p2),
    decreases p2.len(),
{
    if p2.len() == 0 {
        assert(p1 + p2 =~= p1);
    } else {
        let m = path_end(g, s, p1);
        lemma_path_prefix(g, m, p2);
        lemma_path_concat(g, s, p1, p2.drop_last());
        assert((p1 + p2).drop_last() =~= p1 + p2.drop_last());
        assert((p1 + p2).last() == p2.last());
        lemma_path_extend(g, s, p1 + p2.drop_last(), p2.last());
        assert((p1 + p2.drop_last()).push(p2.last()) =~= p1 + p2);
    }
}

/// On a symmetric board every path can be walked backwards at the same cost.
proof fn lemma_path_reverse(map: &GameMap, s: int, p: Seq<Step>) -> (q: Seq<Step>)
    requires
        symmetric(map),
        graph_ok(map.edges@),
        0 <= s < map.edges@.len(),
        is_path(map.edges@, s, p),
    ensures
        is_path(map.edges@, path_end(map.edges@, s, p), q),
        path_end(map.edges@, path_end(map.edges@, s, p), q) == s,
        path_cost(map.edges@, q) == path_cost(map.edges@, p),
    decreases p.len(),
{
    let g = map.edges@;
    if p.len() == 0 {
        let e: Seq<Step> = seq![];
        e
    } else {
        let h = p.last();
        lemma_path_prefix(g, s, p);
        let q0 = lemma_path_reverse(map, s, p.drop_last());
        assert(step_ok(g, p[p.len() - 1]));
        let u = h.0;
        let w = step_to(g, h);
        assert(has_reverse(map, u, h.1));
        let k2 = choose|k2: int| #[trigger] reverse_at(map, u, h.1, k2);
        let hb: Step = (w, k2);
        let first: Seq<Step> = seq![hb];
        assert(is_path(g, w, first));
        assert(path_end(g, w, first) == u);
        assert(path_cost(g, first) == step_cost(g, hb)) by {
            assert(first.drop_last() =~= Seq::<Step>::empty());
            assert(path_cost(g, Seq::<Step>::empty()) == 0);
            assert(first.last() == hb);
        }
        lemma_path_concat(g, w, first, q0);
        first + q0
    }
}

/// A way from the target to `v` and one from the player's network to `v`
/// make a route from the network to the target.
proof fn lemma_join_is_route(map: &GameMap, owned: Seq<Seq<char>>, t: int, pot: Seq<u32>, row: Seq<u32>, root: Seq<u32>, v: int)
    requires
        map.wf(),
        map.waypoints.len() == 0,
        symmetric(map),
        graph_ok(map.edges@),
        0 <= t < map.cities@.len(),
        0 <= v < map.cities@.len(),
        forall|x: int| 0 <= x < map.cities@.len() ==> #[trigger] pot[x] == (if x == t { 0u32 } else { INF }),
        pot.len() == map.cities@.len(),
        closure_ok(map.edges@, pot, row),
        closure_ok(map.edges@, owned_start(map, owned), root),
        row[v] < INF,
        root[v] < INF,
    ensures
        exists|s0: int, hops: Seq<Step>| #[trigger] map.route(map.owned_sources(owned), t, s0, hops)
            && map.walk_cost(hops) == row[v] + root[v],
{
    let g = map.edges@;
    let srcs = owned_start(map, owned);
    let (s1, p1) = choose|s: int, st: Seq<Step>| #[trigger] reaches(g, srcs, v, s, st) && reach_cost(g, srcs, s, st) == root[v];
    let (s2, p2) = choose|s: int, st: Seq<Step>| #[trigger] reaches(g, pot, v, s, st) && reach_cost(g, pot, s, st) == row[v];
    assert(pot[s2] < INF);
    assert(s2 == t);
    assert(pot[t] == 0);
    let back = lemma_path_reverse(map, t, p2);
    assert(path_end(g, t, p2) == v);
    lemma_path_concat(g, s1, p1, back);
    let whole = p1 + back;
    lemma_walk_is_path(map, s1, whole);
    assert(srcs[s1] < INF);
    assert(srcs[s1] == 0u32);
    assert(map.owned_sources(owned)[s1]);
    assert(map.route(map.owned_sources(owned), t, s1, whole));
    assert(map.walk_cost(whole) == row[v] + root[v]);
}

/// With one target `t` on a symmetric board with no waypoints, the cheapest
/// network joining it to a player's (non-empty) network costs exactly the
/// cheapest connection route to it, and exists exactly when that route
/// does. (Routes may pass waypoints, networks may not.)
pub proof fn lemma_single_target_network(
    map: &GameMap,
    owned: Seq<Seq<char>>,
    t: int,
    r: Option<u32>,
    c: Option<u32>,
)
    requires
        map.wf(),
        map.waypoints.len() == 0,
        symmetric(map),
        owned.len() > 0,
        exists|v: int| 0 <= v < map.cities@.len() && #[trigger] map.owned_sources(owned)[v],
        0 <= t < map.cities@.len(),
        network_cost_ok(map, owned, seq![t], r),
        map.connection_cost_ok(owned, map.cities@[t].id@, c),
        c matches Some(a) ==> a < INF,
    ensures
        r == c,
{
    lemma_map_graph(map);
    let g = map.edges@;
    let n = map.cities@.len() as int;
    let terms = seq![t];
    let full = all_targets(1);
    assert((1usize << 1usize) == 2usize) by (bit_vector);
    assert(full == 1);
    let (tab, root) = choose|tab: Seq<Seq<u32>>, root: Seq<u32>| {
        &&& #[trigger] table_ok(map.edges@, terms, tab, full + 1)
        &&& #[trigger] root_ok(map, owned, root)
        &&& ({
            let cj = network_cost(tab, root, map.cities@.len() as int, full, owned.len() > 0);
            &&& cj < INF ==> r == Some(cj as u32)
            &&& cj >= INF ==> r is None
        })
    };
    // One target splits no further: its forest is its single network.
    lemma_join_bound(tab[1], root, n);
    assert(network_cost(tab, root, n, full, true) == cheapest_join(tab[1], root, n));
    let pot = merge_row(tab, terms, 1usize, n);
    assert(closure_ok(g, pot, tab[1]));
    let srcs = owned_start(map, owned);
    assert(closure_ok(g, srcs, root));
    // The starting costs of the single-target row: 0 at `t` only.
    assert forall|v: int| 0 <= v < n implies #[trigger] pot[v] == (if v == t { 0u32 } else { INF }) by {
        assert(single(0) == 1usize) by {
            assert((1usize << 0usize) == 1usize) by (bit_vector);
        }
        assert(best_split(tab, 1usize, v, 1) == INF);
        if v == t {
            assert(start_cost(terms, 1usize, v) == 0);
        } else {
            assert(start_cost(terms, 1usize, v) == INF) by {
                if exists|i: int| 0 <= i < terms.len() && 1usize == single(i) && terms[i] == v {
                    let i = choose|i: int| 0 <= i < terms.len() && 1usize == single(i) && terms[i] == v;
                    assert(i == 0);
                }
            }
        }
    }
    // Any way from the player's network to a city and on from the target to
    // it is a way from the network to the target.
    let src_bool = map.owned_sources(owned);
    lemma_no_waypoints(map, owned, map.cities@[t].id@);
    let tid = map.cities@[t].id@;
    assert(map.id_pos(tid) == Some(t)) by {
        let c2 = choose|i: int| 0 <= i < map.cities.len() && (#[trigger] map.cities[i]).id@ == tid;
        if c2 != t {
            if c2 < t {
                assert(map.cities[c2].id@ != map.cities[t].id@);
            } else {
                assert(map.cities[t].id@ != map.cities[c2].id@);
            }
        }
    }
    assert forall|v: int| 0 <= v < n && tab[1][v] < INF && root[v] < INF implies
        (exists|s0: int, hops: Seq<Step>| #[trigger] map.route(src_bool, t, s0, hops) && map.walk_cost(hops) == tab[1][v] + root[v]) by {
        lemma_join_is_route(map, owned, t, pot, tab[1], root, v);
    }
    if owned.contains(tid) {
        // The target is owned: both costs are 0.
        assert(c == Some(0u32));
        assert(srcs[t] == 0u32);
        let e: Seq<Step> = seq![];
        assert(reaches(g, srcs, t, t, e));
        assert(reaches(g, pot, t, t, e));
        assert(root[t] == 0 && tab[1][t] == 0);
        lemma_cheapest_join_at_most(tab[1], root, n, t);
    } else {
        match c {
            Some(a) => {
                assert(map.shortest(src_bool, t, a as nat));
                // The target itself: 0 from the target, `a` from the network.
                let (s0, h0) = choose|s: int, hops: Seq<Step>| #[trigger] map.route(src_bool, t, s, hops) && map.walk_cost(hops) == a as nat;
                lemma_walk_is_path(map, s0, h0);
                assert(srcs[s0] == 0u32);
                assert(reaches(g, srcs, t, s0, h0));
                let e: Seq<Step> = seq![];
                assert(reaches(g, pot, t, t, e));
                assert(tab[1][t] == 0);
                assert(root[t] <= a);
                assert(a <= map.walk_cost(h0));
                // Nothing cheaper elsewhere.
                assert forall|v: int| 0 <= v < n implies #[trigger] joined_cost(tab[1], root, v) >= a by {
                    if tab[1][v] < INF && root[v] < INF {
                        let (s3, h3) = choose|s0: int, hops: Seq<Step>| #[trigger] map.route(src_bool, t, s0, hops) && map.walk_cost(hops) == tab[1][v] + root[v];
                        assert(a <= map.walk_cost(h3));
                    }
                }
                assert(root[t] == a) by {
                    let (s4, h4) = choose|s: int, st: Seq<Step>| #[trigger] reaches(g, srcs, t, s, st) && reach_cost(g, srcs, s, st) == root[t];
                    lemma_walk_is_path(map, s4, h4);
                    assert(src_bool[s4]);
                    assert(map.route(src_bool, t, s4, h4));
                }
                lemma_cheapest_join_at_most(tab[1], root, n, t);
                lemma_cheapest_join_at_least(tab[1], root, n, a as nat);
                assert(a <= 0x1_0000_0000 * 0x1_0000);
            },
            None => {
                assert(!map.reachable(src_bool, t));
                assert forall|v: int| 0 <= v < n implies #[trigger] joined_cost(tab[1], root, v) >= INF by {
                    if tab[1][v] < INF && root[v] < INF {
                        let (s3, h3) = choose|s0: int, hops: Seq<Step>| #[trigger] map.route(src_bool, t, s0, hops) && map.walk_cost(hops) == tab[1][v] + root[v];
                        assert(map.reachable(src_bool, t));
                    }
                }
                lemma_cheapest_join_at_least(tab[1], root, n, INF as nat);
            },
        }
    }
}

proof fn lemma_cheapest_join_at_most(row: Seq<u32>, root: Seq<u32>, j: int, v: int)
    requires
        0 <= v < j,
    ensures
        cheapest_join(row, root, j) <= joined_cost(row, root, v),
    decreases j,
{
    if j - 1 > v {
        lemma_cheapest_join_at_most(row, root, j - 1, v);
    }
}

proof fn lemma_cheapest_join_at_least(row: Seq<u32>, root: Seq<u32>, j: int, floor: nat)
    requires
        floor <= INF,
        forall|v: int| 0 <= v < j ==> #[trigger] joined_cost(row, root, v) >= floor,
    ensures
        cheapest_join(row, root, j) >= floor,
    decreases j,
{
    if j > 0 {
        lemma_cheapest_join_at_least(row, root, j - 1, floor);
    }
}

// ---------------------------------------------------------------------------
// No set of connections is cheaper
// ---------------------------------------------------------------------------

/// Step `h` is a connection between `a` and `b`, either way round.
pub open spec fn hop_links(g: Graph, h: Step, a: int, b: int) -> bool {
    &&& step_ok(g, h)
    &&& ((h.0 == a && step_to(g, h) == b) || (h.0 == b && step_to(g, h) == a))
}

/// One of the connections `hops` lies between `a` and `b`.
pub open spec fn linked_by(g: Graph, hops: Seq<Step>, a: int, b: int) -> bool {
    exists|j: int| 0 <= j < hops.len() && #[trigger] hop_links(g, hops[j], a, b)
}

/// `w` walks from city to city along connections of `hops`.
pub open spec fn hop_walk(g: Graph, hops: Seq<Step>, w: Seq<int>) -> bool {
    &&& w.len() >= 1
    &&& forall|i: int| 0 <= i < w.len() - 1 ==> #[trigger] linked_by(g, hops, w[i], w[i + 1])
}

/// The connections `hops` join cities `a` and `b`.
pub open spec fn hops_join(g: Graph, hops: Seq<Step>, a: int, b: int) -> bool {
    exists|w: Seq<int>| #[trigger] hop_walk(g, hops, w) && w[0] == a && w.last() == b
}

proof fn lemma_hops_join_refl(g: Graph, hops: Seq<Step>, a: int)
    ensures
        hops_join(g, hops, a, a),
{
    let w = seq![a];
    assert(hop_walk(g, hops, w));
}

proof fn lemma_hops_join_link(g: Graph, hops: Seq<Step>, a: int, b: int)
    requires
        linked_by(g, hops, a, b),
    ensures
        hops_join(g, hops, a, b),
{
    let w = seq![a, b];
    assert(linked_by(g, hops, w[0], w[1]));
    assert(hop_walk(g, hops, w));
}

proof fn lemma_hops_join_trans(g: Graph, hops: Seq<Step>, a: int, b: int, c: int)
    requires
        hops_join(g, hops, a, b),
        hops_join(g, hops, b, c),
    ensures
        hops_join(g, hops, a, c),
{
    let w1 = choose|w: Seq<int>| #[trigger] hop_walk(g, hops, w) && w[0] == a && w.last() == b;
    let w2 = choose|w: Seq<int>| #[trigger] hop_walk(g, hops, w) && w[0] == b && w.last() == c;
    let w = w1 + w2.drop_first();
    assert forall|i: int| 0 <= i < w.len() - 1 implies #[trigger] linked_by(g, hops, w[i], w[i + 1]) by {
        if i < w1.len() - 1 {
            assert(w[i] == w1[i] && w[i + 1] == w1[i + 1]);
            assert(linked_by(g, hops, w1[i], w1[i + 1]));
        } else {
            let k = i - (w1.len() - 1);
            assert(w[i] == w2[k] && w[i + 1] == w2[k + 1]);
            assert(linked_by(g, hops, w2[k], w2[k + 1]));
        }
    }
    assert(hop_walk(g, hops, w));
    if w2.len() == 1 {
        assert(w.last() == w1.last());
    } else {
        assert(w.last() == w2.last());
    }
}

proof fn lemma_hops_join_symm(g: Graph, hops: Seq<Step>, a: int, b: int)
    requires
        hops_join(g, hops, a, b),
    ensures
        hops_join(g, hops, b, a),
{
    let w = choose|w: Seq<int>| #[trigger] hop_walk(g, hops, w) && w[0] == a && w.last() == b;
    let r = w.reverse();
    assert forall|i: int| 0 <= i < r.len() - 1 implies #[trigger] linked_by(g, hops, r[i], r[i + 1]) by {
        let m = w.len() - 2 - i;
        assert(r[i] == w[m + 1] && r[i + 1] == w[m]);
        assert(linked_by(g, hops, w[m], w[m + 1]));
        let j = choose|j: int| 0 <= j < hops.len() && #[trigger] hop_links(g, hops[j], w[m], w[m + 1]);
        assert(hop_links(g, hops[j], r[i], r[i + 1]));
    }
    assert(hop_walk(g, hops, r));
}

/// Every city on a walk is joined to the walk's start.
proof fn lemma_walk_prefix_join(g: Graph, hops: Seq<Step>, w: Seq<int>, i: int)
    requires
        hop_walk(g, hops, w),
        0 <= i < w.len(),
    ensures
        hops_join(g, hops, w[0], w[i]),
    decreases i,
{
    if i == 0 {
        lemma_hops_join_refl(g, hops, w[0]);
    } else {
        lemma_walk_prefix_join(g, hops, w, i - 1);
        let j = i - 1;
        assert(linked_by(g, hops, w[j], w[j + 1]));
        lemma_hops_join_link(g, hops, w[i - 1], w[i]);
        lemma_hops_join_trans(g, hops, w[0], w[i - 1], w[i]);
    }
}

/// Joining only needs connections that `keep` holds, when every connection
/// on some joining walk is kept.
proof fn lemma_hops_join_within(g: Graph, hops: Seq<Step>, kept: Seq<Step>, w: Seq<int>)
    requires
        hop_walk(g, hops, w),
        forall|i: int| 0 <= i < w.len() - 1 ==> #[trigger] linked_by(g, kept, w[i], w[i + 1]),
    ensures
        hops_join(g, kept, w[0], w.last()),
{
    assert(hop_walk(g, kept, w));
}

/// Taking out connection `j`, which lies between `v` and `x`: a walk to `v`
/// still reaches `v` or `x` first without it.
proof fn lemma_first_hit(g: Graph, hops: Seq<Step>, j: int, v: int, x: int, w: Seq<int>)
    requires
        hop_walk(g, hops, w),
        w.last() == v,
        0 <= j < hops.len(),
        hop_links(g, hops[j], v, x),
    ensures
        hops_join(g, hops.remove(j), w[0], v) || hops_join(g, hops.remove(j), w[0], x),
    decreases w.len(),
{
    let r = hops.remove(j);
    if w[0] == v || w[0] == x {
        lemma_hops_join_refl(g, r, w[0]);
    } else {
        assert(w.len() > 1);
        let z: int = 0;
        assert(linked_by(g, hops, w[z], w[z + 1]));
        let j2 = choose|j2: int| 0 <= j2 < hops.len() && #[trigger] hop_links(g, hops[j2], w[0], w[1]);
        assert(j2 != j);
        let j3 = if j2 < j { j2 } else { j2 - 1 };
        assert(r[j3] == hops[j2]);
        assert(linked_by(g, r, w[0], w[1]));
        let w2 = w.drop_first();
        assert forall|i: int| 0 <= i < w2.len() - 1 implies #[trigger] linked_by(g, hops, w2[i], w2[i + 1]) by {
            let k = i + 1;
            assert(linked_by(g, hops, w[k], w[k + 1]));
        }
        assert(hop_walk(g, hops, w2));
        lemma_first_hit(g, hops, j, v, x, w2);
        lemma_hops_join_link(g, r, w[0], w[1]);
        if hops_join(g, r, w2[0], v) {
            lemma_hops_join_trans(g, r, w[0], w[1], v);
        } else {
            lemma_hops_join_trans(g, r, w[0], w[1], x);
        }
    }
}

proof fn lemma_path_cost_remove(g: Graph, s: Seq<Step>, i: int)
    requires
        0 <= i < s.len(),
    ensures
        path_cost(g, s) == path_cost(g, s.remove(i)) + step_cost(g, s[i]),
    decreases s.len(),
{
    if i == s.len() - 1 {
        assert(s.remove(i) =~= s.drop_last());
    } else {
        lemma_path_cost_remove(g, s.drop_last(), i);
        assert(s.remove(i).drop_last() =~= s.drop_last().remove(i));
        assert(s.remove(i).last() == s.last());
    }
}

/// The connections of `hops` whose first city is (`near`) or is not joined
/// to `v` by `whole`.
pub open spec fn hops_near(g: Graph, hops: Seq<Step>, whole: Seq<Step>, v: int, near: bool) -> Seq<Step>
    decreases hops.len(),
{
    if hops.len() == 0 {
        seq![]
    } else {
        let rest = hops_near(g, hops.drop_last(), whole, v, near);
        if hops_join(g, whole, hops.last().0, v) == near { rest.push(hops.last()) } else { rest }
    }
}

proof fn lemma_hops_near_cost(g: Graph, hops: Seq<Step>, whole: Seq<Step>, v: int)
    ensures
        path_cost(g, hops_near(g, hops, whole, v, true)) + path_cost(g, hops_near(g, hops, whole, v, false)) == path_cost(g, hops),
        hops_near(g, hops, whole, v, true).len() <= hops.len(),
        hops_near(g, hops, whole, v, false).len() <= hops.len(),
    decreases hops.len(),
{
    if hops.len() > 0 {
        let p = hops.drop_last();
        lemma_hops_near_cost(g, p, whole, v);
        let h = hops.last();
        let t = hops_near(g, p, whole, v, true);
        let f = hops_near(g, p, whole, v, false);
        if hops_join(g, whole, h.0, v) {
            assert(hops_near(g, hops, whole, v, true).drop_last() =~= t);
        } else {
            assert(hops_near(g, hops, whole, v, false).drop_last() =~= f);
        }
    }
}

/// Each connection lands on the side of `v` its first city belongs to.
proof fn lemma_hops_near_keeps(g: Graph, hops: Seq<Step>, whole: Seq<Step>, v: int, i: int)
    requires
        0 <= i < hops.len(),
    ensures
        exists|k: int| 0 <= k < hops_near(g, hops, whole, v, hops_join(g, whole, hops[i].0, v)).len()
            && #[trigger] hops_near(g, hops, whole, v, hops_join(g, whole, hops[i].0, v))[k] == hops[i],
    decreases hops.len(),
{
    let near = hops_join(g, whole, hops[i].0, v);
    let p = hops.drop_last();
    let q = hops_near(g, hops, whole, v, near);
    if i == hops.len() - 1 {
        assert(q[q.len() - 1] == hops[i]);
    } else {
        assert(hops[i] == p[i]);
        lemma_hops_near_keeps(g, p, whole, v, i);
        let k = choose|k: int| 0 <= k < hops_near(g, p, whole, v, near).len()
            && #[trigger] hops_near(g, p, whole, v, near)[k] == p[i];
        assert(q[k] == hops_near(g, p, whole, v, near)[k]);
    }
}

/// Every connection on either side is one of `hops`.
proof fn lemma_hops_near_from(g: Graph, hops: Seq<Step>, whole: Seq<Step>, v: int, near: bool, k: int)
    requires
        0 <= k < hops_near(g, hops, whole, v, near).len(),
    ensures
        exists|i: int| 0 <= i < hops.len() && hops[i] == hops_near(g, hops, whole, v, near)[k],
    decreases hops.len(),
{
    let p = hops.drop_last();
    let t = hops_near(g, p, whole, v, near);
    if k < t.len() {
        lemma_hops_near_from(g, p, whole, v, near, k);
        let i = choose|i: int| 0 <= i < p.len() && p[i] == t[k];
        assert(hops[i] == p[i]);
    } else {
        assert(hops_near(g, hops, whole, v, near)[k] == hops[hops.len() - 1]);
    }
}

/// A walk from `t` runs over connections whose first city is joined to
/// `t`: those joined to `v` when `t` is, the others when `t` is not.
proof fn lemma_walk_near(g: Graph, hops: Seq<Step>, v: int, t: int, y: int)
    requires
        hops_join(g, hops, t, y),
    ensures
        hops_join(g, hops_near(g, hops, hops, v, hops_join(g, hops, t, v)), t, y),
{
    let near = hops_join(g, hops, t, v);
    let kept = hops_near(g, hops, hops, v, near);
    let w = choose|w: Seq<int>| #[trigger] hop_walk(g, hops, w) && w[0] == t && w.last() == y;
    assert forall|i: int| 0 <= i < w.len() - 1 implies #[trigger] linked_by(g, kept, w[i], w[i + 1]) by {
        assert(linked_by(g, hops, w[i], w[i + 1]));
        let j = choose|j: int| 0 <= j < hops.len() && #[trigger] hop_links(g, hops[j], w[i], w[i + 1]);
        let a = hops[j].0;
        lemma_walk_prefix_join(g, hops, w, i);
        lemma_walk_prefix_join(g, hops, w, i + 1);
        assert(hops_join(g, hops, t, a));
        // `a` is joined to `v` exactly when `t` is.
        if hops_join(g, hops, a, v) {
            lemma_hops_join_trans(g, hops, t, a, v);
        }
        if near {
            lemma_hops_join_symm(g, hops, t, a);
            lemma_hops_join_trans(g, hops, a, t, v);
        }
        assert(hops_join(g, hops, a, v) == near);
        lemma_hops_near_keeps(g, hops, hops, v, j);
        let k = choose|k: int| 0 <= k < kept.len() && #[trigger] kept[k] == hops[j];
        assert(hop_links(g, kept[k], w[i], w[i + 1]));
    }
    lemma_hops_join_within(g, hops, kept, w);
}

/// The cost of the cheapest join over splits from `j` on is no more than
/// the split at `lo`.
proof fn lemma_best_split_at_most(tab: Seq<Seq<u32>>, mask: usize, v: int, j: int, lo: usize)
    requires
        1 <= j <= lo < mask,
    ensures
        best_split(tab, mask, v, j) <= split_cost(tab, mask, lo, v),
    decreases lo - j,
{
    if j < lo {
        lemma_best_split_at_most(tab, mask, v, j + 1, lo);
    }
}

/// A starting cost below `INF` bounds the least cost.
proof fn lemma_closure_start(g: Graph, pot: Seq<u32>, out: Seq<u32>, v: int)
    requires
        closure_ok(g, pot, out),
        0 <= v < g.len(),
        pot.len() == g.len(),
        pot[v] < INF,
    ensures
        out[v] <= pot[v],
{
    let e: Seq<Step> = seq![];
    assert(is_path(g, v, e));
    assert(reaches(g, pot, v, v, e));
    assert(path_cost(g, e) == 0);
}

/// Least costs grow by at most a connection's cost along it.
proof fn lemma_closure_step(g: Graph, pot: Seq<u32>, out: Seq<u32>, h: Step)
    requires
        graph_ok(g),
        closure_ok(g, pot, out),
        step_ok(g, h),
        out[h.0] < INF,
    ensures
        out[step_to(g, h)] <= out[h.0] + step_cost(g, h),
{
    let x = h.0;
    let (s0, st) = choose|s0: int, st: Seq<Step>| #[trigger] reaches(g, pot, x, s0, st) && reach_cost(g, pot, s0, st) == out[x];
    lemma_path_extend(g, s0, st, h);
    assert(reaches(g, pot, step_to(g, h), s0, st.push(h)));
    assert(out[step_to(g, h)] <= reach_cost(g, pot, s0, st.push(h)));
}

/// A subset's cost at `v` is at most the costs of any two complementary
/// parts at `v`.
proof fn lemma_table_split(g: Graph, terms: Seq<int>, tab: Seq<Seq<u32>>, upto: int, s: usize, a: usize, v: int)
    requires
        table_ok(g, terms, tab, upto),
        1 <= s < upto,
        0 <= v < g.len(),
        0 < a,
        a & s == a,
        s ^ a != 0,
        tab[a as int][v] < INF,
        tab[(s ^ a) as int][v] < INF,
    ensures
        tab[s as int][v] <= tab[a as int][v] + tab[(s ^ a) as int][v],
{
    let b = s ^ a;
    let n = g.len() as int;
    assert((a & s) == a && b == (s ^ a) ==> (b & s) == b && (s ^ b) == a) by (bit_vector);
    lemma_split_parts(s, a);
    let lo = if a <= b { a } else { b };
    let hi = if a <= b { b } else { a };
    assert(split_cost(tab, s, lo, v) == tab[a as int][v] + tab[b as int][v]);
    lemma_best_split_at_most(tab, s, v, 1, lo);
    let m: int = s as int;
    assert(closure_ok(g, merge_row(tab, terms, m as usize, g.len() as int), tab[m]));
    let pot = merge_row(tab, terms, s, n);
    assert(closure_ok(g, pot, tab[s as int]));
    lemma_best_split_bound(tab, s, v, 1);
    assert(merged(tab, terms, s, v) <= tab[a as int][v] + tab[b as int][v]);
    if pot[v] < INF {
        lemma_closure_start(g, pot, tab[s as int], v);
    }
}

/// A lone target costs nothing at its own city.
proof fn lemma_table_single(g: Graph, terms: Seq<int>, tab: Seq<Seq<u32>>, upto: int, i: int)
    requires
        table_ok(g, terms, tab, upto),
        0 <= i < terms.len(),
        1 <= single(i) < upto,
        0 <= terms[i] < g.len(),
    ensures
        tab[single(i) as int][terms[i]] == 0,
{
    let s = single(i);
    let n = g.len() as int;
    let pot = merge_row(tab, terms, s, n);
    assert(start_cost(terms, s, terms[i]) == 0);
    let m: int = s as int;
    assert(closure_ok(g, merge_row(tab, terms, m as usize, g.len() as int), tab[m]));
    assert(closure_ok(g, pot, tab[s as int]));
    lemma_closure_start(g, pot, tab[s as int], terms[i]);
}

/// A subset's cost grows by at most a connection's cost along it.
proof fn lemma_table_step(g: Graph, terms: Seq<int>, tab: Seq<Seq<u32>>, upto: int, s: usize, h: Step)
    requires
        graph_ok(g),
        table_ok(g, terms, tab, upto),
        1 <= s < upto,
        step_ok(g, h),
        tab[s as int][h.0] < INF,
    ensures
        tab[s as int][step_to(g, h)] <= tab[s as int][h.0] + step_cost(g, h),
{
    let m: int = s as int;
    assert(closure_ok(g, merge_row(tab, terms, m as usize, g.len() as int), tab[m]));
    let pot = merge_row(tab, terms, s, g.len() as int);
    assert(closure_ok(g, pot, tab[s as int]));
    lemma_closure_step(g, pot, tab[s as int], h);
}

/// A non-empty subset has a target.
proof fn lemma_some_target(m: usize) -> (i: int)
    requires
        m != 0,
    ensures
        0 <= i < usize::BITS,
        has_target(m, i),
    decreases m,
{
    if m & 1usize == 1usize {
        assert((m & 1usize) == 1usize ==> ((m >> 0usize) & 1usize) == 1usize) by (bit_vector);
        0
    } else {
        let m2 = m >> 1usize;
        assert(m != 0usize && (m & 1usize) != 1usize ==> (m >> 1usize) != 0usize && (m >> 1usize) < m) by (bit_vector);
        let j = lemma_some_target(m2);
        let b = j as usize;
        assert(b < usize::BITS && (((m >> 1usize) >> b) & 1usize) == 1usize ==> b + 1 < usize::BITS
            && ((m >> ((b + 1) as usize)) & 1usize) == 1usize) by (bit_vector);
        j + 1
    }
}

/// The targets of a subset of `k` targets are below `k`.
proof fn lemma_target_below(m: usize, k: int, i: int)
    requires
        0 <= k < usize::BITS,
        0 <= i < usize::BITS,
        m < single(k),
        has_target(m, i),
    ensures
        i < k,
{
    let b = i as usize;
    let c = k as usize;
    assert(b < usize::BITS && c < usize::BITS && m < (1usize << c) && ((m >> b) & 1usize) == 1usize ==> b < c) by (bit_vector);
}

/// The targets of `s` below `j` for which `p` holds.
pub open spec fn mask_where(s: usize, j: int, p: spec_fn(int) -> bool) -> usize
    decreases j,
{
    if j <= 0 {
        0
    } else {
        let m = mask_where(s, j - 1, p);
        if has_target(s, j - 1) && p(j - 1) { m | single(j - 1) } else { m }
    }
}

proof fn lemma_mask_where(s: usize, j: int, p: spec_fn(int) -> bool)
    requires
        0 <= j <= usize::BITS,
    ensures
        mask_where(s, j, p) & s == mask_where(s, j, p),
        forall|i: int| 0 <= i < usize::BITS ==> (#[trigger] has_target(mask_where(s, j, p), i)
            <==> (i < j && has_target(s, i) && p(i))),
    decreases j,
{
    if j <= 0 {
        assert forall|i: int| 0 <= i < usize::BITS implies !#[trigger] has_target(0usize, i) by {
            let b = i as usize;
            assert(((0usize >> b) & 1usize) == 0usize) by (bit_vector);
        }
        assert((0usize & s) == 0usize) by (bit_vector);
    } else {
        lemma_mask_where(s, j - 1, p);
        let m = mask_where(s, j - 1, p);
        let c = (j - 1) as usize;
        if has_target(s, j - 1) && p(j - 1) {
            assert((m & s) == m && ((s >> c) & 1usize) == 1usize && c < usize::BITS ==> ((m | (1usize << c)) & s) == (m | (1usize << c))) by (bit_vector);
            assert forall|i: int| 0 <= i < usize::BITS implies (#[trigger] has_target(m | single(j - 1), i)
                <==> (has_target(m, i) || i == j - 1)) by {
                let b = i as usize;
                assert(b < usize::BITS && c < usize::BITS ==> ((((m | (1usize << c)) >> b) & 1usize) == 1usize
                    <==> ((((m >> b) & 1usize) == 1usize) || b == c))) by (bit_vector);
            }
        }
    }
}

/// The rest of `s` beside its part `a`.
proof fn lemma_rest_targets(s: usize, a: usize, i: int)
    requires
        a & s == a,
        0 <= i < usize::BITS,
    ensures
        has_target(s ^ a, i) <==> (has_target(s, i) && !has_target(a, i)),
        a <= s,
        s ^ a <= s,
        (s ^ a) & s == s ^ a,
        s ^ (s ^ a) == a,
{
    let b = i as usize;
    assert((a & s) == a && b < usize::BITS ==> ((((s ^ a) >> b) & 1usize) == 1usize <==> (((s >> b) & 1usize) == 1usize
        && !(((a >> b) & 1usize) == 1usize)))) by (bit_vector);
    assert((a & s) == a ==> a <= s && (s ^ a) <= s && ((s ^ a) & s) == (s ^ a) && (s ^ (s ^ a)) == a) by (bit_vector);
}

proof fn lemma_target_nonzero(m: usize, i: int)
    requires
        0 <= i < usize::BITS,
        has_target(m, i),
    ensures
        m != 0,
{
    let b = i as usize;
    assert(((m >> b) & 1usize) == 1usize ==> m != 0usize) by (bit_vector);
}

/// With no connection at `v`, only `v` itself is joined to `v`.
proof fn lemma_join_untouched(g: Graph, hops: Seq<Step>, t: int, v: int)
    requires
        hops_join(g, hops, t, v),
        forall|j: int| 0 <= j < hops.len() ==> !(#[trigger] hops[j].0 == v || step_to(g, hops[j]) == v),
    ensures
        t == v,
{
    let w = choose|w: Seq<int>| #[trigger] hop_walk(g, hops, w) && w[0] == t && w.last() == v;
    if w.len() > 1 {
        let z = w.len() - 2;
        assert(linked_by(g, hops, w[z], w[z + 1]));
        let j = choose|j: int| 0 <= j < hops.len() && #[trigger] hop_links(g, hops[j], w[z], w[z + 1]);
        assert(w[z + 1] == v);
        assert(hops[j].0 == v || step_to(g, hops[j]) == v);
    }
}

/// The connection `e` between `v` and `x`, taken from `x` to `v`.
proof fn lemma_hop_toward(map: &GameMap, e: Step, v: int, x: int) -> (h: Step)
    requires
        symmetric(map),
        graph_ok(map.edges@),
        hop_links(map.edges@, e, v, x),
    ensures
        step_ok(map.edges@, h),
        h.0 == x,
        step_to(map.edges@, h) == v,
        step_cost(map.edges@, h) == step_cost(map.edges@, e),
{
    let g = map.edges@;
    if e.0 == x && step_to(g, e) == v {
        e
    } else {
        assert(has_reverse(map, e.0, e.1));
        let k2 = choose|k2: int| #[trigger] reverse_at(map, e.0, e.1, k2);
        let h: Step = (x, k2);
        assert(g[x]@[k2] == (v as usize, g[v]@[e.1].1));
        h
    }
}

/// No set of connections that joins the targets of `s` to the city `v`
/// costs less than the table's cost of `s` at `v`.
proof fn lemma_table_least(map: &GameMap, terms: Seq<int>, tab: Seq<Seq<u32>>, upto: int, hops: Seq<Step>, s: usize, v: int)
    requires
        symmetric(map),
        graph_ok(map.edges@),
        table_ok(map.edges@, terms, tab, upto),
        terms.len() < usize::BITS,
        forall|i: int, j: int| 0 <= i < j < terms.len() ==> terms[i] != terms[j],
        forall|i: int| 0 <= i < terms.len() ==> 0 <= #[trigger] terms[i] < map.edges@.len(),
        1 <= s < upto,
        s < single(terms.len() as int),
        0 <= v < map.edges@.len(),
        forall|j: int| 0 <= j < hops.len() ==> step_ok(map.edges@, #[trigger] hops[j]),
        forall|i: int| 0 <= i < terms.len() && #[trigger] has_target(s, i) ==> hops_join(map.edges@, hops, terms[i], v),
        path_cost(map.edges@, hops) < INF,
    ensures
        tab[s as int][v] <= path_cost(map.edges@, hops),
    decreases hops.len(), s,
{
    let g = map.edges@;
    let k = terms.len() as int;
    if exists|j: int| 0 <= j < hops.len() && (#[trigger] hops[j].0 == v || step_to(g, hops[j]) == v) {
        let j = choose|j: int| 0 <= j < hops.len() && (#[trigger] hops[j].0 == v || step_to(g, hops[j]) == v);
        let e = hops[j];
        let x = if e.0 == v { step_to(g, e) } else { e.0 };
        assert(hop_links(g, e, v, x));
        let hx = lemma_hop_toward(map, e, v, x);
        let rest = hops.remove(j);
        lemma_path_cost_remove(g, hops, j);
        assert forall|jj: int| 0 <= jj < rest.len() implies step_ok(g, #[trigger] rest[jj]) by {
            if jj < j {
                assert(rest[jj] == hops[jj]);
            } else {
                assert(rest[jj] == hops[jj + 1]);
            }
        }
        assert forall|i: int| 0 <= i < k && #[trigger] has_target(s, i) implies hops_join(g, rest, terms[i], v)
            || hops_join(g, rest, terms[i], x) by {
            let w = choose|w: Seq<int>| #[trigger] hop_walk(g, hops, w) && w[0] == terms[i] && w.last() == v;
            lemma_first_hit(g, hops, j, v, x, w);
        }
        if forall|i: int| 0 <= i < k && #[trigger] has_target(s, i) ==> hops_join(g, rest, terms[i], v) {
            lemma_table_least(map, terms, tab, upto, rest, s, v);
        } else {
            let i0 = choose|i0: int| 0 <= i0 < k && #[trigger] has_target(s, i0) && !hops_join(g, rest, terms[i0], v);
            let near = hops_near(g, rest, rest, v, true);
            let far = hops_near(g, rest, rest, v, false);
            lemma_hops_near_cost(g, rest, rest, v);
            assert forall|jj: int| 0 <= jj < near.len() implies step_ok(g, #[trigger] near[jj]) by {
                lemma_hops_near_from(g, rest, rest, v, true, jj);
            }
            assert forall|jj: int| 0 <= jj < far.len() implies step_ok(g, #[trigger] far[jj]) by {
                lemma_hops_near_from(g, rest, rest, v, false, jj);
            }
            if forall|i: int| 0 <= i < k && #[trigger] has_target(s, i) ==> !hops_join(g, rest, terms[i], v) {
                assert forall|i: int| 0 <= i < k && #[trigger] has_target(s, i) implies hops_join(g, far, terms[i], x) by {
                    lemma_walk_near(g, rest, v, terms[i], x);
                }
                lemma_table_least(map, terms, tab, upto, far, s, x);
                lemma_table_step(g, terms, tab, upto, s, hx);
            } else {
                let i1 = choose|i1: int| 0 <= i1 < k && #[trigger] has_target(s, i1) && hops_join(g, rest, terms[i1], v);
                let p = |i: int| hops_join(g, rest, terms[i], v);
                let a = mask_where(s, k, p);
                lemma_mask_where(s, k, p);
                let b = s ^ a;
                lemma_rest_targets(s, a, i0);
                assert(has_target(a, i1));
                assert(has_target(b, i0));
                lemma_target_nonzero(a, i1);
                lemma_target_nonzero(b, i0);
                assert forall|i: int| 0 <= i < k && #[trigger] has_target(a, i) implies hops_join(g, near, terms[i], v) by {
                    lemma_hops_join_refl(g, rest, v);
                    lemma_walk_near(g, rest, v, terms[i], v);
                }
                assert forall|i: int| 0 <= i < k && #[trigger] has_target(b, i) implies hops_join(g, far, terms[i], x) by {
                    lemma_rest_targets(s, a, i);
                    lemma_walk_near(g, rest, v, terms[i], x);
                }
                lemma_table_least(map, terms, tab, upto, near, a, v);
                lemma_table_least(map, terms, tab, upto, far, b, x);
                lemma_table_step(g, terms, tab, upto, b, hx);
                lemma_table_split(g, terms, tab, upto, s, a, v);
            }
        }
    } else {
        let i0 = lemma_some_target(s);
        lemma_target_below(s, k, i0);
        lemma_join_untouched(g, hops, terms[i0], v);
        if s == single(i0) {
            lemma_table_single(g, terms, tab, upto, i0);
        } else {
            let c = i0 as usize;
            let b = s ^ single(i0);
            assert(((s >> c) & 1usize) == 1usize && c < usize::BITS && s != (1usize << c) ==> ((1usize << c) & s) == (1usize << c)
                && (s ^ (1usize << c)) != 0usize) by (bit_vector);
            let i1 = lemma_some_target(b);
            lemma_rest_targets(s, single(i0), i1);
            assert(has_target(single(i0), i0)) by {
                assert(c < usize::BITS ==> (((1usize << c) >> c) & 1usize) == 1usize) by (bit_vector);
            }
            assert(i1 != i0);
            lemma_target_below(s, k, i1);
            lemma_join_untouched(g, hops, terms[i1], v);
            if i0 < i1 {
                assert(terms[i0] != terms[i1]);
            } else {
                assert(terms[i1] != terms[i0]);
            }
        }
    }
}

proof fn lemma_forest_split_at_most(tab: Seq<Seq<u32>>, root: Seq<u32>, n: int, mask: usize, j: int, lo: usize)
    requires
        1 <= j <= lo < mask,
        (mask ^ lo) < mask,
        lo & mask == lo,
        lo <= mask ^ lo,
        mask ^ lo != 0,
        forest_cost(tab, root, n, lo) < INF,
        forest_cost(tab, root, n, mask ^ lo) < INF,
    ensures
        forest_split(tab, root, n, mask, j) <= forest_cost(tab, root, n, lo) + forest_cost(tab, root, n, mask ^ lo),
    decreases lo - j,
{
    if j < lo {
        lemma_forest_split_at_most(tab, root, n, mask, j + 1, lo);
    }
}

/// Every target of `s` is joined by `hops` to one of the player's cities.
pub open spec fn reach_owned(map: &GameMap, owned: Seq<Seq<char>>, terms: Seq<int>, hops: Seq<Step>, s: usize) -> bool {
    forall|i: int| 0 <= i < terms.len() && #[trigger] has_target(s, i) ==> exists|o: int|
        0 <= o < map.cities@.len() && map.owned_sources(owned)[o] && #[trigger] hops_join(map.edges@, hops, terms[i], o)
}

/// No set of connections that joins each target of `s` to one of the
/// player's cities costs less than the cheapest forest for `s`.
proof fn lemma_forest_least(map: &GameMap, owned: Seq<Seq<char>>, terms: Seq<int>, tab: Seq<Seq<u32>>, upto: int, root: Seq<u32>, hops: Seq<Step>, s: usize)
    requires
        symmetric(map),
        graph_ok(map.edges@),
        map.edges@.len() == map.cities@.len(),
        table_ok(map.edges@, terms, tab, upto),
        terms.len() < usize::BITS,
        forall|i: int, j: int| 0 <= i < j < terms.len() ==> terms[i] != terms[j],
        forall|i: int| 0 <= i < terms.len() ==> 0 <= #[trigger] terms[i] < map.edges@.len(),
        1 <= s < upto,
        s < single(terms.len() as int),
        owned.len() > 0,
        closure_ok(map.edges@, owned_start(map, owned), root),
        forall|j: int| 0 <= j < hops.len() ==> step_ok(map.edges@, #[trigger] hops[j]),
        reach_owned(map, owned, terms, hops, s),
        path_cost(map.edges@, hops) < INF,
    ensures
        forest_cost(tab, root, map.cities@.len() as int, s) <= path_cost(map.edges@, hops),
    decreases s,
{
    let g = map.edges@;
    let n = map.cities@.len() as int;
    let k = terms.len() as int;
    let i0 = lemma_some_target(s);
    lemma_target_below(s, k, i0);
    let o0 = choose|o: int| 0 <= o < map.cities@.len() && map.owned_sources(owned)[o] && #[trigger] hops_join(g, hops, terms[i0], o);
    assert(owned_start(map, owned)[o0] == 0);
    lemma_closure_start(g, owned_start(map, owned), root, o0);
    if forall|i: int| 0 <= i < k && #[trigger] has_target(s, i) ==> hops_join(g, hops, terms[i], o0) {
        lemma_table_least(map, terms, tab, upto, hops, s, o0);
        lemma_cheapest_join_at_most(tab[s as int], root, n, o0);
    } else {
        let i2 = choose|i2: int| 0 <= i2 < k && #[trigger] has_target(s, i2) && !hops_join(g, hops, terms[i2], o0);
        let p = |i: int| hops_join(g, hops, terms[i], o0);
        let a = mask_where(s, k, p);
        lemma_mask_where(s, k, p);
        let b = s ^ a;
        lemma_rest_targets(s, a, i2);
        assert(has_target(a, i0));
        assert(!has_target(a, i2));
        assert(has_target(b, i2));
        lemma_target_nonzero(a, i0);
        lemma_target_nonzero(b, i2);
        assert(a != s);
        assert(a != 0usize ==> (s ^ a) != s) by (bit_vector);
        let near = hops_near(g, hops, hops, o0, true);
        let far = hops_near(g, hops, hops, o0, false);
        lemma_hops_near_cost(g, hops, hops, o0);
        assert forall|jj: int| 0 <= jj < near.len() implies step_ok(g, #[trigger] near[jj]) by {
            lemma_hops_near_from(g, hops, hops, o0, true, jj);
        }
        assert forall|jj: int| 0 <= jj < far.len() implies step_ok(g, #[trigger] far[jj]) by {
            lemma_hops_near_from(g, hops, hops, o0, false, jj);
        }
        assert forall|i: int| 0 <= i < k && #[trigger] has_target(a, i) implies exists|o: int|
            0 <= o < map.cities@.len() && map.owned_sources(owned)[o] && #[trigger] hops_join(g, near, terms[i], o) by {
            lemma_walk_near(g, hops, o0, terms[i], o0);
            assert(hops_join(g, near, terms[i], o0));
        }
        assert forall|i: int| 0 <= i < k && #[trigger] has_target(b, i) implies exists|o: int|
            0 <= o < map.cities@.len() && map.owned_sources(owned)[o] && #[trigger] hops_join(g, far, terms[i], o) by {
            lemma_rest_targets(s, a, i);
            let o = choose|o: int| 0 <= o < map.cities@.len() && map.owned_sources(owned)[o] && #[trigger] hops_join(g, hops, terms[i], o);
            lemma_walk_near(g, hops, o0, terms[i], o);
            assert(hops_join(g, far, terms[i], o));
        }
        lemma_forest_least(map, owned, terms, tab, upto, root, near, a);
        lemma_forest_least(map, owned, terms, tab, upto, root, far, b);
        if a <= b {
            lemma_forest_split_at_most(tab, root, n, s, 1, a);
        } else {
            lemma_rest_targets(s, b, 0);
            lemma_forest_split_at_most(tab, root, n, s, 1, b);
        }
    }
}

/// The connections `hops` join every target to one of the player's cities
/// or, for a player with no city, all targets to one city.
pub open spec fn joins_network(map: &GameMap, owned: Seq<Seq<char>>, term: Seq<int>, hops: Seq<Step>) -> bool {
    if owned.len() > 0 {
        reach_owned(map, owned, term, hops, all_targets(term.len() as int))
    } else {
        exists|hub: int| 0 <= hub < map.cities@.len() && #[trigger] joins_hub(map.edges@, hops, term, hub)
    }
}

/// The connections `hops` join every target to the city `hub`.
pub open spec fn joins_hub(g: Graph, hops: Seq<Step>, term: Seq<int>, hub: int) -> bool {
    forall|i: int| 0 <= i < term.len() ==> #[trigger] hops_join(g, hops, term[i], hub)
}

/// The distinct positions of the targets lie on the board, none twice.
proof fn lemma_target_nodes_distinct(map: &GameMap, targets: Seq<Seq<char>>)
    requires
        map.wf(),
        target_nodes(map, targets) is Some,
    ensures
        forall|i: int, j: int| 0 <= i < j < target_nodes(map, targets)->Some_0.len()
            ==> target_nodes(map, targets)->Some_0[i] != target_nodes(map, targets)->Some_0[j],
        forall|i: int| 0 <= i < target_nodes(map, targets)->Some_0.len()
            ==> 0 <= #[trigger] target_nodes(map, targets)->Some_0[i] < map.cities@.len(),
    decreases targets.len(),
{
    if targets.len() > 0 {
        lemma_target_nodes_distinct(map, targets.drop_last());
        let prev = target_nodes(map, targets.drop_last())->Some_0;
        let p = map.id_pos(targets.last())->Some_0;
        let t = target_nodes(map, targets)->Some_0;
        assert(0 <= p < map.cities@.len());
        if !prev.contains(p) {
            assert(t == prev.push(p));
            assert forall|i: int, j: int| 0 <= i < j < t.len() implies t[i] != t[j] by {
                if j == t.len() - 1 {
                    assert(t[i] == prev[i]);
                    assert(!prev.contains(p));
                } else {
                    assert(t[i] == prev[i] && t[j] == prev[j]);
                }
            }
            assert forall|i: int| 0 <= i < t.len() implies 0 <= #[trigger] t[i] < map.cities@.len() by {
                if i < t.len() - 1 {
                    assert(t[i] == prev[i]);
                }
            }
        }
    }
}

/// The network cost is the least cost of any set of the board's
/// connections that joins every target to the player's network (each to
/// one of the player's cities) or, for a player with no city, all targets
/// to each other: no such set costs less, and when one costs less than
/// `INF` a network is found. With its connections joining the targets as
/// required and costing no more than the network cost,
/// `connection_network_for` thus returns a cheapest such set.
pub proof fn lemma_network_cost_least(map: &GameMap, owned: Seq<Seq<char>>, targets: Seq<Seq<char>>, term: Seq<int>, r: Option<u32>, hops: Seq<Step>)
    requires
        map.wf(),
        symmetric(map),
        target_nodes(map, targets) == Some(term),
        1 <= term.len() < usize::BITS,
        network_cost_ok(map, owned, term, r),
        forall|j: int| 0 <= j < hops.len() ==> step_ok(map.edges@, #[trigger] hops[j]),
        joins_network(map, owned, term, hops),
        path_cost(map.edges@, hops) < INF,
    ensures
        r matches Some(c) && c <= path_cost(map.edges@, hops),
{
    lemma_map_graph(map);
    lemma_target_nodes_distinct(map, targets);
    let tn = target_nodes(map, targets)->Some_0;
    assert(tn == term);
    assert forall|i: int, j: int| 0 <= i < j < term.len() implies term[i] != term[j] by {
        assert(tn[i] != tn[j]);
    }
    assert forall|i: int| 0 <= i < term.len() implies 0 <= #[trigger] term[i] < map.edges@.len() by {
        assert(0 <= tn[i] < map.cities@.len());
    }
    let g = map.edges@;
    let n = map.cities@.len() as int;
    let k = term.len() as int;
    let full = all_targets(k);
    let (tab, root) = choose|tab: Seq<Seq<u32>>, root: Seq<u32>| {
        &&& #[trigger] table_ok(map.edges@, term, tab, full + 1)
        &&& #[trigger] root_ok(map, owned, root)
        &&& ({
            let c = network_cost(tab, root, n, full, owned.len() > 0);
            &&& c < INF ==> r == Some(c as u32)
            &&& c >= INF ==> r is None
        })
    };
    let kk = k as usize;
    assert(1usize <= kk && kk < usize::BITS ==> (1usize << kk) >= 2usize) by (bit_vector);
    assert(1 <= full < single(k));
    if owned.len() > 0 {
        lemma_forest_least(map, owned, term, tab, full + 1, root, hops, full);
    } else {
        let hub = choose|hub: int| 0 <= hub < map.cities@.len() && #[trigger] joins_hub(g, hops, term, hub);
        assert forall|i: int| 0 <= i < k && #[trigger] has_target(full, i) implies hops_join(g, hops, term[i], hub) by {
            assert(joins_hub(g, hops, term, hub));
        }
        lemma_table_least(map, term, tab, full + 1, hops, full, hub);
        assert(root[hub] == 0);
        lemma_cheapest_join_at_most(tab[full as int], root, n, hub);
    }
}

proof fn lemma_link_upto_some(map: &GameMap, a: int, b: int, k: int) -> (j: int)
    requires
        0 <= k <= map.edges@[a]@.len(),
        link_cost_upto(map, a, b, k) is Some,
    ensures
        0 <= j < k,
        map.edges@[a]@[j].0 as int == b,
        map.edges@[a]@[j].1 as nat == link_cost_upto(map, a, b, k)->Some_0,
    decreases k,
{
    let prev = link_cost_upto(map, a, b, k - 1);
    let e = map.edges@[a]@[k - 1];
    if e.0 as int == b {
        match prev {
            None => k - 1,
            Some(c) => if (e.1 as nat) < c { k - 1 } else { lemma_link_upto_some(map, a, b, k - 1) },
        }
    } else {
        lemma_link_upto_some(map, a, b, k - 1)
    }
}

/// The board connection that a network connection stands for: the
/// cheapest listed between its two cities.
pub open spec fn edge_hop(map: &GameMap, e: ConnectionEdge) -> Step {
    let a = map.id_pos(e.from@)->Some_0;
    let b = map.id_pos(e.to@)->Some_0;
    choose|h: Step| hop_links(map.edges@, h, a, b) && step_cost(map.edges@, h) == link_cost(map, a, b)
}

proof fn lemma_edge_hop(map: &GameMap, e: ConnectionEdge)
    requires
        map.wf(),
        edge_on_board(map, e),
    ensures
        map.id_pos(e.from@) is Some,
        map.id_pos(e.to@) is Some,
        hop_links(map.edges@, edge_hop(map, e), map.id_pos(e.from@)->Some_0, map.id_pos(e.to@)->Some_0),
        step_cost(map.edges@, edge_hop(map, e)) == link_cost(map, map.id_pos(e.from@)->Some_0, map.id_pos(e.to@)->Some_0),
{
    let g = map.edges@;
    let (a, b) = choose|a: int, b: int| {
        &&& 0 <= a < map.cities@.len()
        &&& 0 <= b < map.cities@.len()
        &&& (#[trigger] map.cities@[a]).id@ == e.from@
        &&& (#[trigger] map.cities@[b]).id@ == e.to@
        &&& lex_lt(e.from@, e.to@)
        &&& (linked(map, a, b) || linked(map, b, a))
    };
    lemma_id_pos_of(map, a);
    lemma_id_pos_of(map, b);
    lemma_map_graph(map);
    let x = link_cost_upto(map, a, b, g[a]@.len() as int);
    let y = link_cost_upto(map, b, a, g[b]@.len() as int);
    if linked(map, a, b) {
        let k = choose|k: int| 0 <= k < map.edges@[a]@.len() && (#[trigger] map.edges@[a]@[k]).0 == b;
        lemma_link_upto_at_most(map, a, b, k, g[a]@.len() as int);
    } else {
        let k = choose|k: int| 0 <= k < map.edges@[b]@.len() && (#[trigger] map.edges@[b]@[k]).0 == a;
        lemma_link_upto_at_most(map, b, a, k, g[b]@.len() as int);
    }
    let use_x = match (x, y) {
        (Some(c), Some(d)) => c < d,
        (Some(c), None) => true,
        _ => false,
    };
    if use_x {
        let j = lemma_link_upto_some(map, a, b, g[a]@.len() as int);
        let h: Step = (a, j);
        assert(hop_links(g, h, a, b) && step_cost(g, h) == link_cost(map, a, b));
    } else {
        let j = lemma_link_upto_some(map, b, a, g[b]@.len() as int);
        let h: Step = (b, j);
        assert(hop_links(g, h, a, b) && step_cost(g, h) == link_cost(map, a, b));
    }
}

/// The board connections a network's connections stand for.
pub open spec fn edges_hops(map: &GameMap, edges: Seq<ConnectionEdge>) -> Seq<Step> {
    edges.map_values(|e: ConnectionEdge| edge_hop(map, e))
}

proof fn lemma_edges_hops_cost(map: &GameMap, edges: Seq<ConnectionEdge>)
    requires
        map.wf(),
        forall|i: int| 0 <= i < edges.len() ==> edge_on_board(map, #[trigger] edges[i]),
    ensures
        path_cost(map.edges@, edges_hops(map, edges)) == edges_cost(map, edges),
        forall|i: int| 0 <= i < edges.len() ==> step_ok(map.edges@, #[trigger] edges_hops(map, edges)[i]),
    decreases edges.len(),
{
    let hs = edges_hops(map, edges);
    assert forall|i: int| 0 <= i < edges.len() implies step_ok(map.edges@, #[trigger] hs[i]) by {
        lemma_edge_hop(map, edges[i]);
    }
    if edges.len() > 0 {
        lemma_edges_hops_cost(map, edges.drop_last());
        assert(hs.drop_last() =~= edges_hops(map, edges.drop_last()));
        lemma_edge_hop(map, edges.last());
        assert(hs.last() == edge_hop(map, edges.last()));
    }
}

/// A walk along network connections is a walk along the board connections
/// they stand for.
proof fn lemma_edges_join_hops(map: &GameMap, edges: Seq<ConnectionEdge>, x: Seq<char>, y: Seq<char>)
    requires
        map.wf(),
        forall|i: int| 0 <= i < edges.len() ==> edge_on_board(map, #[trigger] edges[i]),
        edges_join(edges, x, y),
        map.id_pos(x) is Some,
    ensures
        map.id_pos(y) is Some,
        hops_join(map.edges@, edges_hops(map, edges), map.id_pos(x)->Some_0, map.id_pos(y)->Some_0),
{
    let g = map.edges@;
    let hs = edges_hops(map, edges);
    let w = choose|w: Seq<Seq<char>>| {
        &&& w.len() >= 1
        &&& w[0] == x
        &&& w.last() == y
        &&& forall|i: int| 0 <= i < w.len() - 1 ==> #[trigger] edge_between(edges, w[i], w[i + 1])
    };
    // Every id on the walk is a city's.
    assert forall|i: int| 0 <= i < w.len() implies map.id_pos(#[trigger] w[i]) is Some by {
        if i == 0 {
        } else {
            let z = i - 1;
            assert(edge_between(edges, w[z], w[z + 1]));
            let k = choose|k: int| 0 <= k < edges.len() && ((#[trigger] edges[k]).from@ == w[z] && edges[k].to@ == w[z + 1]
                || edges[k].from@ == w[z + 1] && edges[k].to@ == w[z]);
            lemma_edge_hop(map, edges[k]);
        }
    }
    let pw = Seq::new(w.len(), |i: int| map.id_pos(w[i])->Some_0);
    assert forall|i: int| 0 <= i < pw.len() - 1 implies #[trigger] linked_by(g, hs, pw[i], pw[i + 1]) by {
        assert(edge_between(edges, w[i], w[i + 1]));
        let k = choose|k: int| 0 <= k < edges.len() && ((#[trigger] edges[k]).from@ == w[i] && edges[k].to@ == w[i + 1]
            || edges[k].from@ == w[i + 1] && edges[k].to@ == w[i]);
        lemma_edge_hop(map, edges[k]);
        assert(hs[k] == edge_hop(map, edges[k]));
        assert(hop_links(g, hs[k], pw[i], pw[i + 1]));
    }
    assert(hop_walk(g, hs, pw));
    assert(pw[0] == map.id_pos(x)->Some_0);
    assert(pw.last() == map.id_pos(y)->Some_0);
}

/// Every target position is the city of one of the targets.
proof fn lemma_terms_named(map: &GameMap, targets: Seq<Seq<char>>, i: int)
    requires
        target_nodes(map, targets) is Some,
        0 <= i < target_nodes(map, targets)->Some_0.len(),
    ensures
        exists|j: int| 0 <= j < targets.len() && map.id_pos(#[trigger] targets[j]) == Some(target_nodes(map, targets)->Some_0[i]),
    decreases targets.len(),
{
    let prev = target_nodes(map, targets.drop_last())->Some_0;
    let t = target_nodes(map, targets)->Some_0;
    let p = map.id_pos(targets.last())->Some_0;
    let last = targets.len() - 1;
    if i < prev.len() {
        lemma_terms_named(map, targets.drop_last(), i);
        let j = choose|j: int| 0 <= j < targets.drop_last().len() && map.id_pos(#[trigger] targets.drop_last()[j]) == Some(prev[i]);
        assert(targets.drop_last()[j] == targets[j]);
        if !prev.contains(p) {
            assert(t[i] == prev[i]);
        }
    } else {
        assert(t[i] == p);
        assert(targets[last] == targets.last());
        assert(map.id_pos(targets[last]) == Some(p));
    }
}

/// The connections `connection_network_for` returns are a cheapest set: a
/// set of network connections on a symmetric board that joins the targets
/// as required and costs no more than the network cost costs exactly that.
pub proof fn lemma_network_edges_cheapest(map: &GameMap, owned: Seq<String>, targets: Seq<String>, term: Seq<int>, c: u32, edges: Seq<ConnectionEdge>)
    requires
        map.wf(),
        symmetric(map),
        target_nodes(map, id_views(targets)) == Some(term),
        1 <= term.len() < usize::BITS,
        network_cost_ok(map, id_views(owned), term, Some(c)),
        edges_ok(map, edges),
        joins_all(edges, targets, owned),
        edges_cost(map, edges) <= c,
    ensures
        edges_cost(map, edges) == c,
{
    let g = map.edges@;
    let hs = edges_hops(map, edges);
    let ids = id_views(targets);
    let oids = id_views(owned);
    lemma_edges_hops_cost(map, edges);
    let k = term.len() as int;
    let full = all_targets(k);
    assert forall|i: int| #![trigger term[i]] 0 <= i < term.len() implies exists|j: int| 0 <= j < targets.len()
        && map.id_pos(#[trigger] ids[j]) == Some(term[i]) by {
        lemma_terms_named(map, ids, i);
    }
    if owned.len() > 0 {
        assert forall|i: int| 0 <= i < term.len() && #[trigger] has_target(full, i) implies exists|o: int|
            0 <= o < map.cities@.len() && map.owned_sources(oids)[o] && #[trigger] hops_join(g, hs, term[i], o) by {
            let j = choose|j: int| 0 <= j < targets.len() && map.id_pos(#[trigger] ids[j]) == Some(term[i]);
            assert(ids[j] == targets[j]@);
            assert(joined_to_owned(edges, targets[j]@, owned));
            let o = choose|o: int| 0 <= o < owned.len() && #[trigger] edges_join(edges, targets[j]@, owned[o]@);
            lemma_edges_join_hops(map, edges, targets[j]@, owned[o]@);
            let u = map.id_pos(owned[o]@)->Some_0;
            assert(oids[o] == owned[o]@);
            assert(map.cities[u].id@ == owned[o]@);
            assert(map.owned_sources(oids)[u]);
        }
        assert(joins_network(map, oids, term, hs));
    } else {
        let hub = choose|hub: Seq<char>| #[trigger] joined_to_hub(edges, targets, hub);
        let j0 = choose|j: int| 0 <= j < targets.len() && map.id_pos(#[trigger] ids[j]) == Some(term[0]);
        assert(ids[j0] == targets[j0]@);
        assert(edges_join(edges, targets[j0]@, hub));
        lemma_edges_join_hops(map, edges, targets[j0]@, hub);
        let hp = map.id_pos(hub)->Some_0;
        assert forall|i: int| 0 <= i < term.len() implies #[trigger] hops_join(g, hs, term[i], hp) by {
            let j = choose|j: int| 0 <= j < targets.len() && map.id_pos(#[trigger] ids[j]) == Some(term[i]);
            assert(ids[j] == targets[j]@);
            assert(edges_join(edges, targets[j]@, hub));
            lemma_edges_join_hops(map, edges, targets[j]@, hub);
        }
        assert(joins_hub(g, hs, term, hp));
        assert(joins_network(map, oids, term, hs));
    }
    lemma_network_cost_least(map, oids, ids, term, Some(c), hs);
}

} // verus!
