//! The board: cities, the connections between them, and the cheapest
//! connection routes a player pays for when building.

use vstd::prelude::*;

use crate::text::{contains_str, str_eq};
use crate::types::PlayerId;

verus! {

/// A city on the board.
#[derive(Debug)]
pub struct City {
    pub id: String,
    pub name: String,
    pub region: String,
    /// Players who have built here, in build order.
    pub owners: Vec<PlayerId>,
}

/// The board. Routes run over nodes: the cities, then the waypoints (names
/// that connections lead to but that no city has). `links[u]` lists
/// `(neighbour node, connection cost)` for every connection touching node
/// `u`, each connection in both directions; `edges[u]` keeps, for city `u`,
/// those of its links that lead to cities.
#[derive(Debug)]
pub struct GameMap {
    pub name: String,
    pub regions: Vec<String>,
    pub cities: Vec<City>,
    pub edges: Vec<Vec<(usize, u32)>>,
    pub waypoints: Vec<String>,
    pub links: Vec<Vec<(usize, u32)>>,
}

/// The links of `s` that lead to one of the first `n` nodes, in order.
pub open spec fn city_links(s: Seq<(usize, u32)>, n: int) -> Seq<(usize, u32)>
    decreases s.len(),
{
    if s.len() == 0 {
        seq![]
    } else {
        let rest = city_links(s.drop_last(), n);
        if (s.last().0 as int) < n { rest.push(s.last()) } else { rest }
    }
}

fn targets_below(rows: &Vec<Vec<(usize, u32)>>, bound: usize) -> (r: bool)
    ensures
        r == forall|u: int, k: int| 0 <= u < rows.len() && 0 <= k < rows[u].len() ==> (#[trigger] rows[u][k]).0 < bound,
{
    let mut u: usize = 0;
    while u < rows.len()
        invariant
            u <= rows.len(),
            forall|a: int, k: int| 0 <= a < u && 0 <= k < rows[a].len() ==> (#[trigger] rows[a][k]).0 < bound,
        decreases rows.len() - u,
    {
        let mut k: usize = 0;
        while k < rows[u].len()
            invariant
                u < rows.len(),
                k <= rows[u as int].len(),
                forall|a: int, j: int| 0 <= a < u && 0 <= j < rows[a].len() ==> (#[trigger] rows[a][j]).0 < bound,
                forall|j: int| 0 <= j < k ==> (#[trigger] rows[u as int][j]).0 < bound,
            decreases rows[u as int].len() - k,
        {
            if rows[u][k].0 >= bound {
                return false;
            }
            k = k + 1;
        }
        u = u + 1;
    }
    true
}

pub(crate) fn filter_city_links(row: &Vec<(usize, u32)>, n: usize) -> (r: Vec<(usize, u32)>)
    ensures
        r@ == city_links(row@, n as int),
{
    let mut r: Vec<(usize, u32)> = Vec::new();
    let mut j: usize = 0;
    while j < row.len()
        invariant
            j <= row@.len(),
            r@ == city_links(row@.subrange(0, j as int), n as int),
        decreases row@.len() - j,
    {
        proof {
            assert(row@.subrange(0, j + 1).drop_last() =~= row@.subrange(0, j as int));
            assert(row@.subrange(0, j + 1).last() == row@[j as int]);
        }
        if row[j].0 < n {
            r.push(row[j]);
        }
        j = j + 1;
    }
    assert(row@.subrange(0, row@.len() as int) =~= row@);
    r
}

fn same_links(a: &Vec<(usize, u32)>, b: &Vec<(usize, u32)>) -> (r: bool)
    ensures
        r == (a@ == b@),
{
    if a.len() != b.len() {
        return false;
    }
    let mut i: usize = 0;
    while i < a.len()
        invariant
            a@.len() == b@.len(),
            i <= a@.len(),
            forall|j: int| 0 <= j < i ==> a@[j] == b@[j],
        decreases a@.len() - i,
    {
        if a[i].0 != b[i].0 || a[i].1 != b[i].1 {
            return false;
        }
        i = i + 1;
    }
    assert(a@ =~= b@);
    true
}

fn names_distinct(v: &Vec<String>) -> (r: bool)
    ensures
        r == forall|i: int, j: int| 0 <= i < j < v.len() ==> (#[trigger] v[i])@ != (#[trigger] v[j])@,
{
    let n = v.len();
    let mut i: usize = 0;
    while i < n
        invariant
            n == v.len(),
            i <= n,
            forall|a: int, b: int| 0 <= a < b < n && a < i ==> (#[trigger] v[a])@ != (#[trigger] v[b])@,
        decreases n - i,
    {
        let mut j: usize = i + 1;
        while j < n
            invariant
                n == v.len(),
                i < n,
                i + 1 <= j <= n,
                forall|a: int, b: int| 0 <= a < b < n && a < i ==> (#[trigger] v[a])@ != (#[trigger] v[b])@,
                forall|b: int| i < b < j ==> v[i as int]@ != (#[trigger] v[b])@,
            decreases n - j,
        {
            if str_eq(v[i].as_str(), v[j].as_str()) {
                return false;
            }
            j = j + 1;
        }
        i = i + 1;
    }
    true
}

fn names_apart(w: &Vec<String>, cities: &Vec<City>) -> (r: bool)
    ensures
        r == forall|i: int, c: int| 0 <= i < w.len() && 0 <= c < cities.len() ==> (#[trigger] w[i])@ != (#[trigger] cities[c]).id@,
{
    let mut i: usize = 0;
    while i < w.len()
        invariant
            i <= w.len(),
            forall|a: int, c: int| 0 <= a < i && 0 <= c < cities.len() ==> (#[trigger] w[a])@ != (#[trigger] cities[c]).id@,
        decreases w.len() - i,
    {
        let mut c: usize = 0;
        while c < cities.len()
            invariant
                i < w.len(),
                c <= cities.len(),
                forall|a: int, d: int| 0 <= a < i && 0 <= d < cities.len() ==> (#[trigger] w[a])@ != (#[trigger] cities[d]).id@,
                forall|d: int| 0 <= d < c ==> w[i as int]@ != (#[trigger] cities[d]).id@,
            decreases cities.len() - c,
        {
            if str_eq(w[i].as_str(), cities[c].id.as_str()) {
                return false;
            }
            c = c + 1;
        }
        i = i + 1;
    }
    true
}

/// One step of a route: leave city `h.0` along its `h.1`-th connection.
pub type Hop = (int, int);

impl GameMap {
    /// Board invariant: one adjacency list per city, connections lead to
    /// cities of the board, ids are unique.
    pub open spec fn wf(&self) -> bool {
        &&& self.edges.len() == self.cities.len()
        &&& forall|u: int, k: int|
            0 <= u < self.edges.len() && 0 <= k < self.edges[u].len() ==> (#[trigger] self.edges[u][k]).0 < self.cities.len()
        &&& forall|i: int, j: int|
            0 <= i < j < self.cities.len() ==> (#[trigger] self.cities[i]).id@ != (#[trigger] self.cities[j]).id@
        &&& self.links.len() == self.cities.len() + self.waypoints.len()
        &&& forall|u: int, k: int|
            0 <= u < self.links.len() && 0 <= k < self.links[u].len() ==> (#[trigger] self.links[u][k]).0 < self.links.len()
        &&& forall|u: int| 0 <= u < self.cities.len() ==> (#[trigger] self.edges[u])@ == city_links(self.links[u]@, self.cities.len() as int)
        &&& forall|i: int, j: int|
            0 <= i < j < self.waypoints.len() ==> (#[trigger] self.waypoints[i])@ != (#[trigger] self.waypoints[j])@
        &&& forall|i: int, c: int|
            0 <= i < self.waypoints.len() && 0 <= c < self.cities.len() ==> (#[trigger] self.waypoints[i])@ != (#[trigger] self.cities[c]).id@
    }

    /// The name of route node `v`: a city's id, then a waypoint's.
    pub open spec fn node_id(&self, v: int) -> Seq<char> {
        if v < self.cities.len() { self.cities[v].id@ } else { self.waypoints[v - self.cities.len()]@ }
    }

    /// The route node named `id`, if any.
    pub open spec fn node_pos(&self, id: Seq<char>) -> Option<int> {
        if exists|v: int| 0 <= v < self.links.len() && #[trigger] self.node_id(v) == id {
            Some(choose|v: int| 0 <= v < self.links.len() && #[trigger] self.node_id(v) == id)
        } else {
            None
        }
    }

    /// Route nodes whose name appears in `owned`.
    pub open spec fn node_sources(&self, owned: Seq<Seq<char>>) -> Seq<bool> {
        Seq::new(self.links.len() as nat, |v: int| owned.contains(self.node_id(v)))
    }

    /// Tests the board invariant.
    pub fn check_wf(&self) -> (r: bool)
        ensures
            r == self.wf(),
    {
        let n = self.cities.len();
        if self.edges.len() != n {
            return false;
        }
        if !targets_below(&self.edges, n) {
            return false;
        }
        let mut i: usize = 0;
        while i < n
            invariant
                n == self.cities.len(),
                i <= n,
                forall|a: int, b: int| 0 <= a < b < n && a < i ==> (#[trigger] self.cities[a]).id@ != (#[trigger] self.cities[b]).id@,
            decreases n - i,
        {
            let mut j: usize = i + 1;
            while j < n
                invariant
                    n == self.cities.len(),
                    i < n,
                    i + 1 <= j <= n,
                    forall|a: int, b: int| 0 <= a < b < n && a < i ==> (#[trigger] self.cities[a]).id@ != (#[trigger] self.cities[b]).id@,
                    forall|b: int| i < b < j ==> self.cities[i as int].id@ != (#[trigger] self.cities[b]).id@,
                decreases n - j,
            {
                if str_eq(self.cities[i].id.as_str(), self.cities[j].id.as_str()) {
                    return false;
                }
                j = j + 1;
            }
            i = i + 1;
        }
        let m = self.links.len();
        if m < self.waypoints.len() || m - self.waypoints.len() != n {
            return false;
        }
        if !targets_below(&self.links, m) {
            return false;
        }
        let mut u: usize = 0;
        while u < n
            invariant
                n == self.cities.len(),
                self.edges.len() == n,
                m == self.links.len(),
                n <= m,
                u <= n,
                forall|a: int| 0 <= a < u ==> (#[trigger] self.edges[a])@ == city_links(self.links[a]@, n as int),
            decreases n - u,
        {
            let f = filter_city_links(&self.links[u], n);
            if !same_links(&f, &self.edges[u]) {
                return false;
            }
            u = u + 1;
        }
        if !names_distinct(&self.waypoints) {
            return false;
        }
        names_apart(&self.waypoints, &self.cities)
    }

    pub open spec fn hop_ok(&self, h: Hop) -> bool {
        0 <= h.0 < self.links.len() && 0 <= h.1 < self.links[h.0].len()
    }

    pub open spec fn hop_to(&self, h: Hop) -> int {
        self.links[h.0][h.1].0 as int
    }

    pub open spec fn hop_cost(&self, h: Hop) -> nat {
        self.links[h.0][h.1].1 as nat
    }

    /// `hops` is a route of connections starting at city `start`.
    pub open spec fn is_walk(&self, start: int, hops: Seq<Hop>) -> bool {
        &&& forall|i: int| 0 <= i < hops.len() ==> self.hop_ok(#[trigger] hops[i])
        &&& hops.len() > 0 ==> hops[0].0 == start
        &&& forall|i: int| 0 <= i < hops.len() - 1 ==> self.hop_to(#[trigger] hops[i]) == hops[i + 1].0
    }

    pub open spec fn walk_end(&self, start: int, hops: Seq<Hop>) -> int {
        if hops.len() == 0 { start } else { self.hop_to(hops.last()) }
    }

    /// Sum of the connection costs along `hops`.
    pub open spec fn walk_cost(&self, hops: Seq<Hop>) -> nat
        decreases hops.len(),
    {
        if hops.len() == 0 {
            0
        } else {
            self.walk_cost(hops.drop_last()) + self.hop_cost(hops.last())
        }
    }

    /// `hops` leads from a city marked in `sources` to city `target`.
    pub open spec fn route(&self, sources: Seq<bool>, target: int, start: int, hops: Seq<Hop>) -> bool {
        &&& 0 <= start < sources.len()
        &&& sources[start]
        &&& self.is_walk(start, hops)
        &&& self.walk_end(start, hops) == target
    }

    pub open spec fn reachable(&self, sources: Seq<bool>, target: int) -> bool {
        exists|s: int, hops: Seq<Hop>| #[trigger] self.route(sources, target, s, hops)
    }

    /// `d` is the cost of the cheapest route from `sources` to `target`.
    pub open spec fn shortest(&self, sources: Seq<bool>, target: int, d: nat) -> bool {
        &&& exists|s: int, hops: Seq<Hop>| #[trigger] self.route(sources, target, s, hops) && self.walk_cost(hops) == d
        &&& forall|s: int, hops: Seq<Hop>| #[trigger] self.route(sources, target, s, hops) ==> d <= self.walk_cost(hops)
    }
}

/// Number of `false` entries of `s`.
pub open spec fn count_false(s: Seq<bool>) -> nat
    decreases s.len(),
{
    if s.len() == 0 {
        0
    } else {
        count_false(s.drop_last()) + if s.last() { 0nat } else { 1nat }
    }
}

proof fn lemma_count_false_bound(s: Seq<bool>)
    ensures
        count_false(s) <= s.len(),
    decreases s.len(),
{
    if s.len() > 0 {
        lemma_count_false_bound(s.drop_last());
    }
}

proof fn lemma_count_false_update(s: Seq<bool>, i: int)
    requires
        0 <= i < s.len(),
        !s[i],
    ensures
        count_false(s.update(i, true)) + 1 == count_false(s),
    decreases s.len(),
{
    let t = s.update(i, true);
    if i == s.len() - 1 {
        assert(t.drop_last() == s.drop_last());
    } else {
        assert(t.drop_last() == s.drop_last().update(i, true));
        lemma_count_false_update(s.drop_last(), i);
    }
}

proof fn lemma_count_false_zero(s: Seq<bool>, i: int)
    requires
        0 <= i < s.len(),
        !s[i],
    ensures
        count_false(s) > 0,
    decreases s.len(),
{
    if i < s.len() - 1 {
        lemma_count_false_zero(s.drop_last(), i);
    }
}

proof fn lemma_walk_prefix(map: &GameMap, start: int, hops: Seq<Hop>)
    requires
        map.is_walk(start, hops),
        hops.len() > 0,
    ensures
        map.is_walk(start, hops.drop_last()),
        map.walk_end(start, hops.drop_last()) == hops.last().0,
        map.walk_cost(hops) == map.walk_cost(hops.drop_last()) + map.hop_cost(hops.last()),
{
    let p = hops.drop_last();
    assert forall|i: int| 0 <= i < p.len() implies map.hop_ok(#[trigger] p[i]) by {
        assert(p[i] == hops[i]);
    }
    assert forall|i: int| 0 <= i < p.len() - 1 implies map.hop_to(#[trigger] p[i]) == p[i + 1].0 by {
        assert(p[i] == hops[i]);
    }
    if p.len() > 0 {
        assert(map.hop_to(hops[hops.len() - 2]) == hops[hops.len() - 1].0);
    }
}

proof fn lemma_walk_extend(map: &GameMap, start: int, hops: Seq<Hop>, h: Hop)
    requires
        map.is_walk(start, hops),
        map.hop_ok(h),
        h.0 == map.walk_end(start, hops),
    ensures
        map.is_walk(start, hops.push(h)),
        map.walk_end(start, hops.push(h)) == map.hop_to(h),
        map.walk_cost(hops.push(h)) == map.walk_cost(hops) + map.hop_cost(h),
{
    let q = hops.push(h);
    assert(q.drop_last() == hops);
    assert forall|i: int| 0 <= i < q.len() implies map.hop_ok(#[trigger] q[i]) by {
        if i < hops.len() {
            assert(q[i] == hops[i]);
        }
    }
    assert forall|i: int| 0 <= i < q.len() - 1 implies map.hop_to(#[trigger] q[i]) == q[i + 1].0 by {
        assert(q[i] == hops[i]);
        if i < hops.len() - 1 {
            assert(q[i + 1] == hops[i + 1]);
        }
    }
}

/// Every tentative distance is the cost of a real route.
#[verifier::opaque]
pub open spec fn witness_inv(map: &GameMap, sources: Seq<bool>, dist: Seq<Option<u128>>) -> bool {
    forall|v: int| 0 <= v < dist.len() && (#[trigger] dist[v]) is Some ==>
        exists|s: int, hops: Seq<Hop>| #[trigger] map.route(sources, v, s, hops) && map.walk_cost(hops) == dist[v]->0
}

/// Settled distances are optimal.
#[verifier::opaque]
pub open spec fn settled_inv(map: &GameMap, sources: Seq<bool>, dist: Seq<Option<u128>>, settled: Seq<bool>) -> bool {
    forall|v: int| 0 <= v < settled.len() && #[trigger] settled[v] ==> {
        &&& dist[v] is Some
        &&& forall|s: int, hops: Seq<Hop>| #[trigger] map.route(sources, v, s, hops) ==> dist[v]->0 <= map.walk_cost(hops)
    }
}

/// Connections out of settled cities are relaxed, except the connections
/// `k_from..` of city `skip`.
#[verifier::opaque]
pub open spec fn relaxed_inv(map: &GameMap, dist: Seq<Option<u128>>, settled: Seq<bool>, skip: int, k_from: int) -> bool {
    forall|u: int, k: int| 0 <= u < settled.len() && settled[u] && 0 <= k < map.links[u].len() && (u != skip || k < k_from) ==> {
        let w = (#[trigger] map.links[u][k]).0 as int;
        &&& dist[w] is Some
        &&& dist[w]->0 <= dist[u]->0 + map.links[u][k].1
    }
}

/// Sources sit at distance zero.
#[verifier::opaque]
pub open spec fn source_inv(sources: Seq<bool>, dist: Seq<Option<u128>>) -> bool {
    forall|v: int| 0 <= v < sources.len() && #[trigger] sources[v] ==> dist[v] == Some(0u128)
}

#[verifier::opaque]
pub open spec fn bound_inv(dist: Seq<Option<u128>>, bound: int) -> bool {
    forall|v: int| 0 <= v < dist.len() && (#[trigger] dist[v]) is Some ==> dist[v]->0 <= bound
}

/// Facts the search keeps about its tentative distances.
pub open spec fn search_inv(map: &GameMap, sources: Seq<bool>, dist: Seq<Option<u128>>, settled: Seq<bool>) -> bool {
    let n = map.links.len() as int;
    &&& sources.len() == n
    &&& dist.len() == n
    &&& settled.len() == n
    &&& witness_inv(map, sources, dist)
    &&& settled_inv(map, sources, dist, settled)
    &&& relaxed_inv(map, dist, settled, -1, 0)
    &&& source_inv(sources, dist)
    &&& bound_inv(dist, u32::MAX * (n - count_false(settled)))
}

/// Along any route to an unsettled city there is an unsettled city whose
/// tentative distance is at most the route's cost.
proof fn lemma_unsettled_bound(
    map: &GameMap,
    sources: Seq<bool>,
    dist: Seq<Option<u128>>,
    settled: Seq<bool>,
    start: int,
    hops: Seq<Hop>,
) -> (w: int)
    requires
        map.wf(),
        search_inv(map, sources, dist, settled),
        map.route(sources, map.walk_end(start, hops), start, hops),
        !settled[map.walk_end(start, hops)],
    ensures
        0 <= w < map.links.len(),
        !settled[w],
        dist[w] is Some,
        dist[w]->0 <= map.walk_cost(hops),
    decreases hops.len(),
{
    reveal(witness_inv);
    reveal(settled_inv);
    reveal(relaxed_inv);
    reveal(source_inv);
    reveal(bound_inv);
    if hops.len() == 0 {
        assert(sources[start]);
        start
    } else {
        let prefix = hops.drop_last();
        let last = hops.last();
        lemma_walk_prefix(map, start, hops);
        let u = last.0;
        assert(map.hop_ok(hops[hops.len() - 1]));
        assert(map.route(sources, u, start, prefix));
        if !settled[u] {
            lemma_unsettled_bound(map, sources, dist, settled, start, prefix)
        } else {
            assert(map.links[u][last.1] == map.links[last.0][last.1]);
            map.walk_end(start, hops)
        }
    }
}

/// Settling the unsettled city of least tentative distance keeps the search
/// invariant (minus the relaxation of its own connections).
proof fn lemma_settle(
    map: &GameMap,
    sources: Seq<bool>,
    dist: Seq<Option<u128>>,
    settled: Seq<bool>,
    v: int,
)
    requires
        map.wf(),
        search_inv(map, sources, dist, settled),
        0 <= v < settled.len(),
        !settled[v],
        dist[v] is Some,
        forall|u: int| 0 <= u < settled.len() && !settled[u] && (#[trigger] dist[u]) is Some ==> dist[v]->0 <= dist[u]->0,
    ensures
        ({
            let settled2 = settled.update(v, true);
            let n = map.links.len() as int;
            &&& witness_inv(map, sources, dist)
            &&& settled_inv(map, sources, dist, settled2)
            &&& relaxed_inv(map, dist, settled2, v, 0)
            &&& source_inv(sources, dist)
            &&& bound_inv(dist, u32::MAX * (n - count_false(settled2)))
            &&& dist[v]->0 <= u32::MAX * (n - count_false(settled2) - 1)
            &&& count_false(settled2) + 1 == count_false(settled)
            &&& count_false(settled2) < n
        }),
{
    reveal(witness_inv);
    reveal(settled_inv);
    reveal(relaxed_inv);
    reveal(source_inv);
    reveal(bound_inv);
    let settled2 = settled.update(v, true);
    let n = map.links.len() as int;
    assert forall|s: int, hops: Seq<Hop>| #[trigger] map.route(sources, v, s, hops) implies
        dist[v]->0 <= map.walk_cost(hops) by {
        let w = lemma_unsettled_bound(map, sources, dist, settled, s, hops);
    }
    lemma_count_false_update(settled, v);
    lemma_count_false_bound(settled);
    lemma_count_false_bound(settled2);
    assert forall|u: int| 0 <= u < settled2.len() && #[trigger] settled2[u] implies {
        &&& dist[u] is Some
        &&& forall|s: int, hops: Seq<Hop>| #[trigger] map.route(sources, u, s, hops) ==> dist[u]->0 <= map.walk_cost(hops)
    } by {
        if u != v {
            assert(settled[u]);
        }
    }
    assert forall|u: int, k: int| 0 <= u < settled2.len() && settled2[u] && 0 <= k < map.links[u].len() && (u != v || k < 0) implies {
        let w = (#[trigger] map.links[u][k]).0 as int;
        &&& dist[w] is Some
        &&& dist[w]->0 <= dist[u]->0 + map.links[u][k].1
    } by {
        assert(settled[u]);
    }
}

/// The route to `v` extended by its `k`-th connection.
proof fn lemma_extend_witness(map: &GameMap, sources: Seq<bool>, dist: Seq<Option<u128>>, v: int, k: int) -> (r: (int, Seq<Hop>))
    requires
        map.wf(),
        dist.len() == map.links.len(),
        0 <= v < map.links.len(),
        0 <= k < map.links[v].len(),
        dist[v] is Some,
        witness_inv(map, sources, dist),
    ensures
        map.route(sources, map.links[v][k].0 as int, r.0, r.1),
        map.walk_cost(r.1) == dist[v]->0 + map.links[v][k].1,
{
    reveal(witness_inv);
    let (s, hops) = choose|s: int, hops: Seq<Hop>| #[trigger] map.route(sources, v, s, hops) && map.walk_cost(hops) == dist[v]->0;
    let h: Hop = (v, k);
    lemma_walk_extend(map, s, hops, h);
    (s, hops.push(h))
}

/// Relaxing the `k`-th connection out of the just-settled city `v`.
proof fn lemma_relax_step(
    map: &GameMap,
    sources: Seq<bool>,
    dist: Seq<Option<u128>>,
    settled: Seq<bool>,
    v: int,
    k: int,
    bound: int,
)
    requires
        map.wf(),
        sources.len() == map.links.len(),
        dist.len() == map.links.len(),
        settled.len() == map.links.len(),
        0 <= v < map.links.len(),
        0 <= k < map.links[v].len(),
        settled[v],
        dist[v] is Some,
        dist[v]->0 + u32::MAX <= bound <= u32::MAX * usize::MAX,
        witness_inv(map, sources, dist),
        settled_inv(map, sources, dist, settled),
        relaxed_inv(map, dist, settled, v, k),
        source_inv(sources, dist),
        bound_inv(dist, bound),
    ensures
        ({
            let w = map.links[v][k].0 as int;
            let nd = (dist[v]->0 + map.links[v][k].1) as u128;
            let improve = dist[w] is None || nd < dist[w]->0;
            let dist2 = if improve { dist.update(w, Some(nd)) } else { dist };
            &&& witness_inv(map, sources, dist2)
            &&& settled_inv(map, sources, dist2, settled)
            &&& relaxed_inv(map, dist2, settled, v, k + 1)
            &&& source_inv(sources, dist2)
            &&& bound_inv(dist2, bound)
            &&& dist2[v] == dist[v]
        }),
{
    let w = map.links[v][k].0 as int;
    let c = map.links[v][k].1;
    let dv = dist[v]->0;
    let nd = (dv + c) as u128;
    let improve = dist[w] is None || nd < dist[w]->0;
    let (s, hops) = lemma_extend_witness(map, sources, dist, v, k);
    let dist2 = if improve { dist.update(w, Some(nd)) } else { dist };
    assert(!improve || !settled[w]) by {
        reveal(settled_inv);
        if settled[w] {
            assert(dist[w]->0 <= map.walk_cost(hops));
        }
    }
    assert(!improve || !sources[w]) by {
        reveal(source_inv);
    }
    assert(witness_inv(map, sources, dist2)) by {
        reveal(witness_inv);
        if improve {
            assert forall|x: int| 0 <= x < dist2.len() && (#[trigger] dist2[x]) is Some implies
                exists|s2: int, hops2: Seq<Hop>| #[trigger] map.route(sources, x, s2, hops2) && map.walk_cost(hops2) == dist2[x]->0 by {
                if x != w {
                    assert(dist[x] == dist2[x]);
                } else {
                    assert(map.route(sources, x, s, hops));
                }
            }
        }
    }
    assert(settled_inv(map, sources, dist2, settled)) by {
        reveal(settled_inv);
        if improve {
            assert forall|u: int| 0 <= u < settled.len() && #[trigger] settled[u] implies {
                &&& dist2[u] is Some
                &&& forall|s2: int, hops2: Seq<Hop>| #[trigger] map.route(sources, u, s2, hops2) ==> dist2[u]->0 <= map.walk_cost(hops2)
            } by {
                assert(u != w);
                assert(dist2[u] == dist[u]);
            }
        }
    }
    assert(relaxed_inv(map, dist2, settled, v, k + 1)) by {
        reveal(relaxed_inv);
        assert forall|u: int, kk: int| 0 <= u < settled.len() && settled[u] && 0 <= kk < map.links[u].len() && (u != v || kk < k + 1) implies {
            let y = (#[trigger] map.links[u][kk]).0 as int;
            &&& dist2[y] is Some
            &&& dist2[y]->0 <= dist2[u]->0 + map.links[u][kk].1
        } by {
            let y = map.links[u][kk].0 as int;
            if u == v && kk == k {
            } else {
                assert(dist[y] is Some);
                assert(dist[y]->0 <= dist[u]->0 + map.links[u][kk].1);
                if improve {
                    assert(u != w);
                }
            }
        }
    }
    assert(source_inv(sources, dist2)) by {
        reveal(source_inv);
    }
    assert(bound_inv(dist2, bound)) by {
        reveal(bound_inv);
    }
}

proof fn lemma_relaxed_all(map: &GameMap, dist: Seq<Option<u128>>, settled: Seq<bool>, v: int)
    requires
        relaxed_inv(map, dist, settled, v, map.links[v].len() as int),
        0 <= v < map.links.len(),
    ensures
        relaxed_inv(map, dist, settled, -1, 0),
{
    reveal(relaxed_inv);
}

/// Relaxes every connection out of the just-settled city `v`.
fn relax_from(map: &GameMap, sources: &Vec<bool>, dist: &mut Vec<Option<u128>>, settled: &Vec<bool>, v: usize, dv: u128, Ghost(bound): Ghost<int>)
    requires
        map.wf(),
        sources.len() == map.links.len(),
        old(dist).len() == map.links.len(),
        settled.len() == map.links.len(),
        v < map.links.len(),
        settled[v as int],
        old(dist)[v as int] == Some(dv),
        dv + u32::MAX <= bound <= u32::MAX * usize::MAX,
        witness_inv(map, sources@, old(dist)@),
        settled_inv(map, sources@, old(dist)@, settled@),
        relaxed_inv(map, old(dist)@, settled@, v as int, 0),
        source_inv(sources@, old(dist)@),
        bound_inv(old(dist)@, bound),
    ensures
        final(dist).len() == map.links.len(),
        witness_inv(map, sources@, final(dist)@),
        settled_inv(map, sources@, final(dist)@, settled@),
        relaxed_inv(map, final(dist)@, settled@, -1, 0),
        source_inv(sources@, final(dist)@),
        bound_inv(final(dist)@, bound),
{
    let m = map.links[v].len();
    let mut k: usize = 0;
    while k < m
        invariant
            k <= m,
            m == map.links[v as int].len(),
            map.wf(),
            v < map.links.len(),
            sources.len() == map.links.len(),
            dist.len() == map.links.len(),
            settled.len() == map.links.len(),
            settled[v as int],
            dist[v as int] == Some(dv),
            dv + u32::MAX <= bound <= u32::MAX * usize::MAX,
            witness_inv(map, sources@, dist@),
            settled_inv(map, sources@, dist@, settled@),
            relaxed_inv(map, dist@, settled@, v as int, k as int),
            source_inv(sources@, dist@),
            bound_inv(dist@, bound),
        decreases m - k,
    {
        let (w, c) = map.links[v][k];
        proof {
            assert(map.links[v as int][k as int] == (w, c));
            lemma_relax_step(map, sources@, dist@, settled@, v as int, k as int, bound);
        }
        let nd: u128 = dv + c as u128;
        let improve = match dist[w] {
            None => true,
            Some(dw) => nd < dw,
        };
        if improve {
            dist.set(w, Some(nd));
        }
        k = k + 1;
    }
    proof {
        lemma_relaxed_all(map, dist@, settled@, v as int);
    }
}

/// The unsettled city of least tentative distance, if any has one.
fn pick_unsettled(dist: &Vec<Option<u128>>, settled: &Vec<bool>) -> (best: Option<usize>)
    requires
        dist.len() == settled.len(),
    ensures
        match best {
            Some(b) => {
                &&& b < dist.len()
                &&& !settled[b as int]
                &&& dist[b as int] is Some
                &&& forall|v: int| 0 <= v < dist.len() && !settled[v] && (#[trigger] dist[v]) is Some ==>
                    dist[b as int]->0 <= dist[v]->0
            },
            None => forall|v: int| 0 <= v < dist.len() && !settled[v] ==> (#[trigger] dist[v]) is None,
        },
{
    let n = dist.len();
    let mut best: Option<usize> = None;
    let mut j: usize = 0;
    while j < n
        invariant
            j <= n,
            dist.len() == n,
            settled.len() == n,
            match best {
                Some(b) => {
                    &&& b < j
                    &&& !settled[b as int]
                    &&& dist[b as int] is Some
                    &&& forall|v: int| 0 <= v < j && !settled[v] && (#[trigger] dist[v]) is Some ==>
                        dist[b as int]->0 <= dist[v]->0
                },
                None => forall|v: int| 0 <= v < j && !settled[v] ==> (#[trigger] dist[v]) is None,
            },
        decreases n - j,
    {
        if !settled[j] {
            if let Some(dj) = dist[j] {
                match best {
                    None => best = Some(j),
                    Some(b) => {
                        if let Some(db) = dist[b] {
                            if dj < db {
                                best = Some(j);
                            }
                        }
                    },
                }
            }
        }
        j = j + 1;
    }
    best
}

/// Cheapest route cost from the marked `sources` to every city (`None` for
/// cities no route reaches), by Dijkstra's method.
pub fn shortest_distances(map: &GameMap, sources: &Vec<bool>) -> (dist: Vec<Option<u128>>)
    requires
        map.wf(),
        sources.len() == map.links.len(),
    ensures
        dist.len() == map.links.len(),
        forall|v: int| 0 <= v < dist.len() ==> match #[trigger] dist[v] {
            Some(d) => map.shortest(sources@, v, d as nat),
            None => !map.reachable(sources@, v),
        },
        forall|v: int| 0 <= v < dist.len() && (#[trigger] dist[v]) is Some ==>
            dist[v]->0 <= u32::MAX * usize::MAX,
{
    let n = map.links.len();
    let mut dist: Vec<Option<u128>> = Vec::new();
    let mut settled: Vec<bool> = Vec::new();
    let mut i: usize = 0;
    while i < n
        invariant
            i <= n,
            n == map.links.len(),
            sources.len() == n,
            dist.len() == i,
            settled.len() == i,
            forall|v: int| 0 <= v < i ==> !(#[trigger] settled[v]),
            forall|v: int| 0 <= v < i ==> #[trigger] dist[v] == if sources[v] { Some(0u128) } else { None },
        decreases n - i,
    {
        dist.push(if sources[i] { Some(0u128) } else { None });
        settled.push(false);
        i = i + 1;
    }
    proof {
        reveal(witness_inv);
    reveal(settled_inv);
    reveal(relaxed_inv);
    reveal(source_inv);
    reveal(bound_inv);
        assert forall|v: int| 0 <= v < dist@.len() && (#[trigger] dist@[v]) is Some implies
            exists|s: int, hops: Seq<Hop>| #[trigger] map.route(sources@, v, s, hops) && map.walk_cost(hops) == dist@[v]->0 by {
            assert(map.route(sources@, v, v, Seq::<Hop>::empty()));
        }
        lemma_count_false_bound(settled@);
    }
    loop
        invariant
            n == map.links.len(),
            map.wf(),
            search_inv(map, sources@, dist@, settled@),
        ensures
            search_inv(map, sources@, dist@, settled@),
            forall|v: int| 0 <= v < n && !settled@[v] ==> (#[trigger] dist@[v]) is None,
        decreases count_false(settled@),
    {
        let v = match pick_unsettled(&dist, &settled) {
            None => break,
            Some(b) => b,
        };
        let dv = match dist[v] {
            Some(d) => d,
            None => 0,
        };
        let ghost before = settled@;
        proof {
            lemma_settle(map, sources@, dist@, settled@, v as int);
        }
        settled.set(v, true);
        assert(settled@ == before.update(v as int, true));
        relax_from(map, sources, &mut dist, &settled, v, dv, Ghost(u32::MAX * (n - count_false(settled@))));
    }
    proof {
        reveal(witness_inv);
    reveal(settled_inv);
    reveal(relaxed_inv);
    reveal(source_inv);
    reveal(bound_inv);
        assert forall|v: int| 0 <= v < dist.len() implies match #[trigger] dist@[v] {
            Some(d) => map.shortest(sources@, v, d as nat),
            None => !map.reachable(sources@, v),
        } by {
            if !settled@[v] {
                if map.reachable(sources@, v) {
                    let (s, hops) = choose|s: int, hops: Seq<Hop>| #[trigger] map.route(sources@, v, s, hops);
                    let w = lemma_unsettled_bound(map, sources@, dist@, settled@, s, hops);
                }
            }
        }
        lemma_count_false_bound(settled@);
    }
    dist
}

/// The ids of `owned` as character sequences.
pub open spec fn id_views(owned: Seq<String>) -> Seq<Seq<char>> {
    owned.map_values(|s: String| s@)
}

impl GameMap {
    /// Position of the city whose id is `id`, if the board has one.
    pub open spec fn id_pos(&self, id: Seq<char>) -> Option<int> {
        if exists|i: int| 0 <= i < self.cities.len() && (#[trigger] self.cities[i]).id@ == id {
            Some(choose|i: int| 0 <= i < self.cities.len() && (#[trigger] self.cities[i]).id@ == id)
        } else {
            None
        }
    }

    /// Cities whose id appears in `owned`.
    pub open spec fn owned_sources(&self, owned: Seq<Seq<char>>) -> Seq<bool> {
        Seq::new(self.cities.len() as nat, |i: int| owned.contains(self.cities[i].id@))
    }

    /// Index of the city with id `id`.
    pub fn index_of(&self, id: &str) -> (r: Option<usize>)
        requires
            self.wf(),
        ensures
            match r {
                Some(i) => self.id_pos(id@) == Some(i as int) && i < self.cities.len() && self.cities[i as int].id@ == id@,
                None => self.id_pos(id@) is None,
            },
    {
        let mut i: usize = 0;
        while i < self.cities.len()
            invariant
                self.wf(),
                i <= self.cities.len(),
                forall|j: int| 0 <= j < i ==> (#[trigger] self.cities[j]).id@ != id@,
            decreases self.cities.len() - i,
        {
            if str_eq(self.cities[i].id.as_str(), id) {
                proof {
                    let c = choose|j: int| 0 <= j < self.cities.len() && (#[trigger] self.cities[j]).id@ == id@;
                    if c != i {
                        assert(self.cities[c].id@ != self.cities[i as int].id@);
                    }
                }
                return Some(i);
            }
            i = i + 1;
        }
        None
    }

    /// Marks the cities whose id appears in `owned`.
    pub fn sources_for(&self, owned: &[String]) -> (r: Vec<bool>)
        ensures
            r@ == self.owned_sources(id_views(owned@)),
    {
        let mut r: Vec<bool> = Vec::new();
        let mut i: usize = 0;
        while i < self.cities.len()
            invariant
                i <= self.cities.len(),
                r.len() == i,
                forall|j: int| 0 <= j < i ==> r[j] == id_views(owned@).contains(self.cities[j].id@),
            decreases self.cities.len() - i,
        {
            let hit = contains_str(owned, self.cities[i].id.as_str());
            proof {
                let ids = id_views(owned@);
                if hit {
                    let j = choose|j: int| 0 <= j < owned@.len() && (#[trigger] owned@[j])@ == self.cities[i as int].id@;
                    assert(ids[j] == self.cities[i as int].id@);
                } else {
                    assert forall|j: int| 0 <= j < ids.len() implies ids[j] != self.cities[i as int].id@ by {
                        assert(ids[j] == owned@[j]@);
                    }
                }
            }
            r.push(hit);
            i = i + 1;
        }
        assert(r@ =~= self.owned_sources(id_views(owned@)));
        r
    }

    /// `d` is the cost of the cheapest route from `sources` to `t`, held at
    /// `u32::MAX` when it is that or more.
    pub open spec fn capped_shortest(&self, sources: Seq<bool>, t: int, d: u32) -> bool {
        if d < u32::MAX {
            self.shortest(sources, t, d as nat)
        } else {
            exists|e: nat| e >= u32::MAX && #[trigger] self.shortest(sources, t, e)
        }
    }

    /// The name of route node `v`.
    pub fn node_name(&self, v: usize) -> (r: &String)
        requires
            self.wf(),
            v < self.links.len(),
        ensures
            r@ == self.node_id(v as int),
    {
        if v < self.cities.len() {
            &self.cities[v].id
        } else {
            &self.waypoints[v - self.cities.len()]
        }
    }

    /// The route node named `id`.
    pub fn node_index_of(&self, id: &str) -> (r: Option<usize>)
        requires
            self.wf(),
        ensures
            match r {
                Some(v) => self.node_pos(id@) == Some(v as int) && v < self.links.len(),
                None => self.node_pos(id@) is None,
            },
    {
        let mut v: usize = 0;
        while v < self.links.len()
            invariant
                self.wf(),
                v <= self.links.len(),
                forall|j: int| 0 <= j < v ==> #[trigger] self.node_id(j) != id@,
            decreases self.links.len() - v,
        {
            if str_eq(self.node_name(v).as_str(), id) {
                proof {
                    let c = choose|j: int| 0 <= j < self.links.len() && #[trigger] self.node_id(j) == id@;
                    if c != v {
                        let n = self.cities.len() as int;
                        if c < n && v < n {
                            if c < v {
                                assert(self.cities[c].id@ != self.cities[v as int].id@);
                            } else {
                                assert(self.cities[v as int].id@ != self.cities[c].id@);
                            }
                        } else if c >= n && v >= n {
                            if c < v {
                                assert(self.waypoints[c - n]@ != self.waypoints[v - n]@);
                            } else {
                                assert(self.waypoints[v - n]@ != self.waypoints[c - n]@);
                            }
                        } else if c < n {
                            assert(self.waypoints[v - n]@ != self.cities[c].id@);
                        } else {
                            assert(self.waypoints[c - n]@ != self.cities[v as int].id@);
                        }
                    }
                }
                return Some(v);
            }
            v = v + 1;
        }
        None
    }

    /// Marks the route nodes whose name appears in `owned`.
    pub fn node_sources_for(&self, owned: &[String]) -> (r: Vec<bool>)
        requires
            self.wf(),
        ensures
            r@ == self.node_sources(id_views(owned@)),
    {
        let mut r: Vec<bool> = Vec::new();
        let mut v: usize = 0;
        while v < self.links.len()
            invariant
                self.wf(),
                v <= self.links.len(),
                r.len() == v,
                forall|j: int| 0 <= j < v ==> r[j] == id_views(owned@).contains(self.node_id(j)),
            decreases self.links.len() - v,
        {
            let name = self.node_name(v);
            let hit = contains_str(owned, name.as_str());
            proof {
                let ids = id_views(owned@);
                if hit {
                    let j = choose|j: int| 0 <= j < owned@.len() && (#[trigger] owned@[j])@ == name@;
                    assert(ids[j] == self.node_id(v as int));
                } else {
                    assert forall|j: int| 0 <= j < ids.len() implies ids[j] != self.node_id(v as int) by {
                        assert(ids[j] == owned@[j]@);
                    }
                }
            }
            r.push(hit);
            v = v + 1;
        }
        assert(r@ =~= self.node_sources(id_views(owned@)));
        r
    }

    /// Cheapest connection cost from a network owning `owned` to `target`,
    /// routing over every node (cities and waypoints): 0 for a player's first
    /// city or a city already in the network, `None` when no node has the
    /// name `target` or no route reaches it; a cost of
    /// `u32::MAX` or more saturates at `u32::MAX`.
    pub open spec fn connection_cost_ok(&self, owned: Seq<Seq<char>>, target: Seq<char>, r: Option<u32>) -> bool {
        if owned.len() == 0 || owned.contains(target) {
            r == Some(0u32)
        } else {
            match self.node_pos(target) {
                None => r is None,
                Some(t) => match r {
                    Some(d) => self.capped_shortest(self.node_sources(owned), t, d),
                    None => !self.reachable(self.node_sources(owned), t),
                },
            }
        }
    }

    /// The connection cost `connection_cost_ok` pins down.
    pub open spec fn spec_connection_cost(&self, owned: Seq<Seq<char>>, target: Seq<char>) -> Option<u32> {
        choose|r: Option<u32>| self.connection_cost_ok(owned, target, r)
    }

    pub fn connection_cost_to(&self, owned_cities: &[String], target: &str) -> (r: Option<u32>)
        requires
            self.wf(),
        ensures
            self.connection_cost_ok(id_views(owned_cities@), target@, r),
            r == self.spec_connection_cost(id_views(owned_cities@), target@),
    {
        let ghost owned = id_views(owned_cities@);
        if owned_cities.len() == 0 {
            return Some(0);
        }
        if contains_str(owned_cities, target) {
            proof {
                let j = choose|j: int| 0 <= j < owned_cities@.len() && (#[trigger] owned_cities@[j])@ == target@;
                assert(owned[j] == target@);
            }
            return Some(0);
        }
        proof {
            assert forall|j: int| 0 <= j < owned.len() implies owned[j] != target@ by {
                assert(owned[j] == owned_cities@[j]@);
            }
        }
        let t = match self.node_index_of(target) {
            None => return None,
            Some(t) => t,
        };
        let sources = self.node_sources_for(owned_cities);
        let dist = shortest_distances(self, &sources);
        let r = match dist[t] {
            None => None,
            Some(d) => if d < u32::MAX as u128 {
                Some(d as u32)
            } else {
                Some(u32::MAX)
            },
        };
        proof {
            if let Some(d) = dist@[t as int] {
                // A cost past `u32::MAX` is itself the witness of the held one.
                assert(self.shortest(self.node_sources(owned), t as int, d as nat));
                assert(self.capped_shortest(self.node_sources(owned), t as int, r->Some_0));
            }
            assert(self.connection_cost_ok(owned, target@, r));
            let c = choose|r2: Option<u32>| self.connection_cost_ok(owned, target@, r2);
            self.lemma_connection_cost_unique(owned, target@, r, c);
        }
        r
    }

    /// The route cost behind a connection cost: the cost itself below
    /// `u32::MAX`, else some cheapest route cost of at least `u32::MAX`.
    pub open spec fn route_cost_behind(&self, sources: Seq<bool>, t: int, d: u32) -> nat {
        if d < u32::MAX {
            d as nat
        } else {
            choose|e: nat| e >= u32::MAX && #[trigger] self.shortest(sources, t, e)
        }
    }

    pub proof fn lemma_connection_cost_unique(&self, owned: Seq<Seq<char>>, target: Seq<char>, r1: Option<u32>, r2: Option<u32>)
        requires
            self.connection_cost_ok(owned, target, r1),
        ensures
            self.connection_cost_ok(owned, target, r2) ==> r1 == r2,
    {
        if self.connection_cost_ok(owned, target, r2) && !(owned.len() == 0 || owned.contains(target)) {
            if let Some(t) = self.node_pos(target) {
                let src = self.node_sources(owned);
                match (r1, r2) {
                    (Some(a), Some(b)) => {
                        let ea = self.route_cost_behind(src, t, a);
                        let eb = self.route_cost_behind(src, t, b);
                        assert(self.shortest(src, t, ea));
                        assert(self.shortest(src, t, eb));
                        let (s1, h1) = choose|s: int, hops: Seq<Hop>| #[trigger] self.route(src, t, s, hops) && self.walk_cost(hops) == ea;
                        let (s2, h2) = choose|s: int, hops: Seq<Hop>| #[trigger] self.route(src, t, s, hops) && self.walk_cost(hops) == eb;
                        assert(ea <= self.walk_cost(h2));
                        assert(eb <= self.walk_cost(h1));
                    },
                    (Some(a), None) => {
                        let ea = self.route_cost_behind(src, t, a);
                        assert(self.shortest(src, t, ea));
                        let (s1, h1) = choose|s: int, hops: Seq<Hop>| #[trigger] self.route(src, t, s, hops) && self.walk_cost(hops) == ea;
                        assert(self.reachable(src, t));
                    },
                    (None, Some(b)) => {
                        let eb = self.route_cost_behind(src, t, b);
                        assert(self.shortest(src, t, eb));
                        let (s2, h2) = choose|s: int, hops: Seq<Hop>| #[trigger] self.route(src, t, s, hops) && self.walk_cost(hops) == eb;
                        assert(self.reachable(src, t));
                    },
                    (None, None) => {},
                }
            }
        }
    }

    /// Growing a network never makes a city dearer to reach: with more
    /// cities owned (and at least one owned before), a reachable city stays
    /// reachable at no greater cost.
    pub proof fn lemma_connection_cost_monotone(
        &self,
        owned: Seq<Seq<char>>,
        grown: Seq<Seq<char>>,
        target: Seq<char>,
        a: u32,
        r: Option<u32>,
    )
        requires
            owned.len() > 0,
            forall|x: Seq<char>| owned.contains(x) ==> grown.contains(x),
            self.connection_cost_ok(owned, target, Some(a)),
            self.connection_cost_ok(grown, target, r),
        ensures
            r matches Some(b) && b <= a,
    {
        let x0 = owned[0];
        assert(owned.contains(x0));
        assert(grown.len() > 0);
        if !grown.contains(target) {
            assert(!owned.contains(target));
            let t = self.node_pos(target)->Some_0;
            let src = self.node_sources(owned);
            let src2 = self.node_sources(grown);
            let ea = self.route_cost_behind(src, t, a);
            assert(self.shortest(src, t, ea));
            let (s, hops) = choose|s: int, hops: Seq<Hop>| #[trigger] self.route(src, t, s, hops) && self.walk_cost(hops) == ea;
            assert(src[s]);
            assert(src2[s]) by {
                assert(owned.contains(self.node_id(s)));
            }
            assert(self.route(src2, t, s, hops));
            assert(self.reachable(src2, t));
            if let Some(b) = r {
                if b < u32::MAX && a < u32::MAX {
                    assert(b <= self.walk_cost(hops));
                } else if a < u32::MAX {
                    let eb = self.route_cost_behind(src2, t, b);
                    assert(self.shortest(src2, t, eb));
                    assert(eb <= self.walk_cost(hops));
                }
            }
        }
    }
}

} // verus!
