//! Building a board from its map file's data, and recognising the default
//! board the learned policy was trained on.

use vstd::prelude::*;
use vstd::pervasive::VecAdditionalExecFns;

use crate::encoding::{city_id, spec_city_id, N_CITIES};
use crate::map::{city_links, filter_city_links, id_views, City, GameMap};
use crate::network::{has_reverse, reverse_at, symmetric};
use crate::text::{contains_str, str_eq};

verus! {

/// A city as a map file lists it.
#[derive(Debug)]
pub struct CityData {
    pub id: String,
    pub name: String,
    pub region: String,
}

/// A connection as a map file lists it.
#[derive(Debug)]
pub struct ConnectionData {
    pub from: String,
    pub to: String,
    pub cost: u32,
}

/// A map file's board data.
#[derive(Debug)]
pub struct MapData {
    pub name: String,
    pub regions: Vec<String>,
    pub cities: Vec<CityData>,
    pub connections: Vec<ConnectionData>,
}


/// Entry `i` is the last that `cities` lists with its id.
pub open spec fn is_last(cities: Seq<CityData>, i: int) -> bool {
    forall|j: int| i < j < cities.len() ==> (#[trigger] cities[j]).id@ != cities[i].id@
}

/// The entries among the first `k` that no later entry overrides, in order.
pub open spec fn kept_upto(cities: Seq<CityData>, k: int) -> Seq<CityData>
    decreases k,
{
    if k <= 0 {
        seq![]
    } else {
        let p = kept_upto(cities, k - 1);
        if is_last(cities, k - 1) { p.push(cities[k - 1]) } else { p }
    }
}

/// The cities a map file makes: for an id listed more than once, its last
/// entry, in file order.
pub open spec fn kept_cities(cities: Seq<CityData>) -> Seq<CityData> {
    kept_upto(cities, cities.len() as int)
}

/// The ids of `cities`.
pub open spec fn data_ids(cities: Seq<CityData>) -> Seq<Seq<char>> {
    cities.map_values(|c: CityData| c.id@)
}

/// The route nodes after the first `k` connections: the kept cities' ids,
/// then each name a connection mentions that is not there yet (from, then
/// to), in order of first mention.
pub open spec fn nodes_after(data: MapData, k: int) -> Seq<Seq<char>>
    decreases k,
{
    if k <= 0 {
        data_ids(kept_cities(data.cities@))
    } else {
        let p = nodes_after(data, k - 1);
        let c = data.connections@[k - 1];
        let p1 = if p.contains(c.from@) { p } else { p.push(c.from@) };
        if p1.contains(c.to@) { p1 } else { p1.push(c.to@) }
    }
}

/// All route nodes of the board `data` describes.
pub open spec fn board_nodes(data: MapData) -> Seq<Seq<char>> {
    nodes_after(data, data.connections@.len() as int)
}

/// Position of `id` in `nodes`, if any.
pub open spec fn name_pos(nodes: Seq<Seq<char>>, id: Seq<char>) -> Option<int> {
    if exists|i: int| 0 <= i < nodes.len() && nodes[i] == id {
        Some(choose|i: int| 0 <= i < nodes.len() && nodes[i] == id)
    } else {
        None
    }
}

pub open spec fn names_unique(nodes: Seq<Seq<char>>) -> bool {
    forall|i: int, j: int| 0 <= i < j < nodes.len() ==> nodes[i] != nodes[j]
}

/// Every connection's ends are among `nodes`.
pub open spec fn names_known(data: MapData, nodes: Seq<Seq<char>>) -> bool {
    forall|k: int| 0 <= k < data.connections@.len() ==> {
        &&& name_pos(nodes, (#[trigger] data.connections@[k]).from@) is Some
        &&& name_pos(nodes, data.connections@[k].to@) is Some
    }
}

/// The connections touching node `u` among the first `k`, each as
/// (other end, cost), in file order; a connection lists under both ends.
pub open spec fn adjacency(data: MapData, nodes: Seq<Seq<char>>, u: int, k: int) -> Seq<(usize, u32)>
    decreases k,
{
    if k <= 0 {
        seq![]
    } else {
        let c = data.connections@[k - 1];
        let f = name_pos(nodes, c.from@)->Some_0;
        let t = name_pos(nodes, c.to@)->Some_0;
        let a = adjacency(data, nodes, u, k - 1);
        let a1 = if f == u { a.push((t as usize, c.cost)) } else { a };
        if t == u { a1.push((f as usize, c.cost)) } else { a1 }
    }
}

/// `map` is the board `data` describes: the kept cities in file order with
/// no houses; the names connections lead to that no city has, as
/// waypoints; every connection under both of its ends, in file order; and
/// each city's connections to cities.
pub open spec fn built_from(map: GameMap, data: MapData) -> bool {
    let kept = kept_cities(data.cities@);
    let nodes = board_nodes(data);
    let n = kept.len() as int;
    &&& map.name@ == data.name@
    &&& map.regions@.len() == data.regions@.len()
    &&& forall|i: int| 0 <= i < data.regions@.len() ==> (#[trigger] map.regions@[i])@ == data.regions@[i]@
    &&& map.cities@.len() == n
    &&& forall|i: int| 0 <= i < n ==> {
        &&& (#[trigger] map.cities@[i]).id@ == kept[i].id@
        &&& map.cities@[i].name@ == kept[i].name@
        &&& map.cities@[i].region@ == kept[i].region@
        &&& map.cities@[i].owners@.len() == 0
    }
    &&& map.waypoints@.len() == nodes.len() - n
    &&& forall|i: int| 0 <= i < map.waypoints@.len() ==> (#[trigger] map.waypoints@[i])@ == nodes[n + i]
    &&& map.links@.len() == nodes.len()
    &&& forall|u: int| 0 <= u < nodes.len() ==> (#[trigger] map.links@[u])@ == adjacency(data, nodes, u, data.connections@.len() as int)
    &&& forall|u: int| 0 <= u < n ==> (#[trigger] map.edges@[u])@ == city_links(map.links@[u]@, n)
}

fn copy_str(s: &String) -> (r: String)
    ensures
        r@ == s@,
{
    s.as_str().to_owned()
}

fn find_name(nodes: &Vec<String>, id: &str) -> (r: Option<usize>)
    requires
        names_unique(id_views(nodes@)),
    ensures
        match r {
            Some(i) => name_pos(id_views(nodes@), id@) == Some(i as int) && i < nodes@.len(),
            None => name_pos(id_views(nodes@), id@) is None,
        },
{
    let ghost ids = id_views(nodes@);
    let mut i: usize = 0;
    while i < nodes.len()
        invariant
            ids == id_views(nodes@),
            names_unique(ids),
            i <= nodes@.len(),
            forall|j: int| 0 <= j < i ==> ids[j] != id@,
        decreases nodes@.len() - i,
    {
        if str_eq(nodes[i].as_str(), id) {
            proof {
                assert(ids[i as int] == id@);
                let c = choose|j: int| 0 <= j < ids.len() && ids[j] == id@;
                if c != i {
                    if c < i {
                    } else {
                        assert(ids[i as int] != ids[c]);
                    }
                }
            }
            return Some(i);
        }
        i = i + 1;
    }
    proof {
        if exists|j: int| 0 <= j < ids.len() && ids[j] == id@ {
            let j = choose|j: int| 0 <= j < ids.len() && ids[j] == id@;
        }
    }
    None
}

proof fn lemma_kept_unique(cities: Seq<CityData>, k: int)
    requires
        0 <= k <= cities.len(),
    ensures
        names_unique(data_ids(kept_upto(cities, k))),
        forall|a: int, j: int| 0 <= a < kept_upto(cities, k).len() && k <= j < cities.len()
            ==> (#[trigger] cities[j]).id@ != (#[trigger] kept_upto(cities, k)[a]).id@,
    decreases k,
{
    if k > 0 {
        lemma_kept_unique(cities, k - 1);
        let p = kept_upto(cities, k - 1);
        let q = kept_upto(cities, k);
        if is_last(cities, k - 1) {
            assert forall|a: int, j: int| 0 <= a < q.len() && k <= j < cities.len()
                implies (#[trigger] cities[j]).id@ != (#[trigger] q[a]).id@ by {
                if a < p.len() {
                    assert(q[a] == p[a]);
                } else {
                    assert(q[a] == cities[k - 1]);
                }
            }
            let ids = data_ids(q);
            assert forall|a: int, b: int| 0 <= a < b < ids.len() implies ids[a] != ids[b] by {
                if b == ids.len() - 1 {
                    assert(q[a] == p[a]);
                    assert(cities[k - 1].id@ != p[a].id@);
                } else {
                    assert(data_ids(p)[a] != data_ids(p)[b]);
                }
            }
        } else {
            assert forall|a: int, j: int| 0 <= a < q.len() && k <= j < cities.len()
                implies (#[trigger] cities[j]).id@ != (#[trigger] q[a]).id@ by {
                assert(q[a] == p[a]);
            }
        }
    }
}

proof fn lemma_nodes_after(data: MapData, k: int)
    requires
        0 <= k <= data.connections@.len(),
    ensures
        names_unique(nodes_after(data, k)),
        nodes_after(data, k).len() >= kept_cities(data.cities@).len(),
        forall|i: int| 0 <= i < kept_cities(data.cities@).len() ==> #[trigger] nodes_after(data, k)[i] == kept_cities(data.cities@)[i].id@,
    decreases k,
{
    if k <= 0 {
        lemma_kept_unique(data.cities@, data.cities@.len() as int);
    } else {
        lemma_nodes_after(data, k - 1);
        let p = nodes_after(data, k - 1);
        let c = data.connections@[k - 1];
        let p1 = if p.contains(c.from@) { p } else { p.push(c.from@) };
        assert(names_unique(p1)) by {
            if !p.contains(c.from@) {
                assert forall|i: int, j: int| 0 <= i < j < p1.len() implies p1[i] != p1[j] by {
                    if j == p1.len() - 1 {
                        assert(p1[i] == p[i]);
                    } else {
                        assert(p1[i] == p[i] && p1[j] == p[j]);
                    }
                }
            }
        }
        let p2 = nodes_after(data, k);
        if !p1.contains(c.to@) {
            assert forall|i: int, j: int| 0 <= i < j < p2.len() implies p2[i] != p2[j] by {
                if j == p2.len() - 1 {
                    assert(p2[i] == p1[i]);
                } else {
                    assert(p2[i] == p1[i] && p2[j] == p1[j]);
                }
            }
        }
        assert forall|i: int| 0 <= i < kept_cities(data.cities@).len() implies #[trigger] p2[i] == kept_cities(data.cities@)[i].id@ by {
            assert(p1[i] == p[i]);
            assert(p2[i] == p1[i]);
        }
    }
}

/// Nodes found after `j` connections stay in place after `k`.
proof fn lemma_nodes_grow(data: MapData, j: int, k: int, i: int)
    requires
        0 <= j <= k <= data.connections@.len(),
        0 <= i < nodes_after(data, j).len(),
    ensures
        i < nodes_after(data, k).len(),
        nodes_after(data, k)[i] == nodes_after(data, j)[i],
    decreases k - j,
{
    if j < k {
        lemma_nodes_grow(data, j, k - 1, i);
        let p = nodes_after(data, k - 1);
        let c = data.connections@[k - 1];
        let p1 = if p.contains(c.from@) { p } else { p.push(c.from@) };
        assert(p1[i] == p[i]);
    }
}

proof fn lemma_names_known(data: MapData)
    ensures
        names_known(data, board_nodes(data)),
        names_unique(board_nodes(data)),
{
    let kk = data.connections@.len() as int;
    lemma_nodes_after(data, kk);
    let nodes = board_nodes(data);
    assert forall|k: int| 0 <= k < kk implies {
        &&& name_pos(nodes, (#[trigger] data.connections@[k]).from@) is Some
        &&& name_pos(nodes, data.connections@[k].to@) is Some
    } by {
        let c = data.connections@[k];
        let p = nodes_after(data, k);
        let p1 = if p.contains(c.from@) { p } else { p.push(c.from@) };
        let q = nodes_after(data, k + 1);
        assert(p1.contains(c.from@)) by {
            if !p.contains(c.from@) {
                assert(p1[p1.len() - 1] == c.from@);
            }
        }
        let i1 = choose|i: int| 0 <= i < p1.len() && p1[i] == c.from@;
        assert(q.contains(c.to@)) by {
            if !p1.contains(c.to@) {
                assert(q[q.len() - 1] == c.to@);
            }
        }
        let i2 = choose|i: int| 0 <= i < q.len() && q[i] == c.to@;
        assert(q[i1] == p1[i1]);
        lemma_nodes_grow(data, k + 1, kk, i1);
        lemma_nodes_grow(data, k + 1, kk, i2);
        assert(nodes[i1] == c.from@);
        assert(nodes[i2] == c.to@);
    }
}

proof fn lemma_adjacency_bounds(data: MapData, nodes: Seq<Seq<char>>, u: int, k: int)
    requires
        names_known(data, nodes),
        0 <= k <= data.connections@.len(),
        nodes.len() <= usize::MAX,
    ensures
        forall|e: int| 0 <= e < adjacency(data, nodes, u, k).len() ==> ((#[trigger] adjacency(data, nodes, u, k)[e]).0 as int) < nodes.len(),
    decreases k,
{
    if k > 0 {
        lemma_adjacency_bounds(data, nodes, u, k - 1);
        let c = data.connections@[k - 1];
        let f = name_pos(nodes, c.from@)->Some_0;
        let t = name_pos(nodes, c.to@)->Some_0;
        assert(name_pos(nodes, c.from@) is Some);
        assert(name_pos(nodes, c.to@) is Some);
        assert(0 <= f < nodes.len() && 0 <= t < nodes.len());
        assert((t as usize) as int == t && (f as usize) as int == f);
        let a = adjacency(data, nodes, u, k - 1);
        let a1 = if f == u { a.push((t as usize, c.cost)) } else { a };
        assert forall|e: int| 0 <= e < a1.len() implies ((#[trigger] a1[e]).0 as int) < nodes.len() by {
            if e < a.len() {
                assert(a1[e] == a[e]);
            }
        }
        let a2 = if t == u { a1.push((f as usize, c.cost)) } else { a1 };
        assert forall|e: int| 0 <= e < a2.len() implies ((#[trigger] a2[e]).0 as int) < nodes.len() by {
            if e < a1.len() {
                assert(a2[e] == a1[e]);
            }
        }
    }
}

/// The board a map file describes. As a map keyed by id keeps the last
/// value stored under a key, an id listed twice gives one city, from its
/// later entry; a connection to a name that no city has leads to a
/// waypoint of that name, which routes may pass.
pub fn from_data(data: &MapData) -> (map: GameMap)
    ensures
        built_from(map, *data),
        map.wf(),
        symmetric(&map),
{
    let n0 = data.cities.len();
    // The kept cities, and the node names, cities first.
    let mut cities: Vec<City> = Vec::new();
    let mut names: Vec<String> = Vec::new();
    let mut i: usize = 0;
    while i < n0
        invariant
            n0 == data.cities@.len(),
            i <= n0,
            cities@.len() == kept_upto(data.cities@, i as int).len(),
            names@.len() == cities@.len(),
            forall|a: int| 0 <= a < cities@.len() ==> {
                &&& (#[trigger] cities@[a]).id@ == kept_upto(data.cities@, i as int)[a].id@
                &&& cities@[a].name@ == kept_upto(data.cities@, i as int)[a].name@
                &&& cities@[a].region@ == kept_upto(data.cities@, i as int)[a].region@
                &&& cities@[a].owners@.len() == 0
                &&& names@[a]@ == kept_upto(data.cities@, i as int)[a].id@
            },
        decreases n0 - i,
    {
        let mut last = true;
        let mut j: usize = i + 1;
        while j < n0
            invariant
                n0 == data.cities@.len(),
                i < n0,
                i + 1 <= j <= n0,
                last == forall|b: int| i < b < j ==> (#[trigger] data.cities@[b]).id@ != data.cities@[i as int].id@,
            decreases n0 - j,
        {
            if str_eq(data.cities[j].id.as_str(), data.cities[i].id.as_str()) {
                last = false;
            }
            j = j + 1;
        }
        let ghost before_c = cities@;
        let ghost before_n = names@;
        if last {
            let cd = &data.cities[i];
            cities.push(City { id: copy_str(&cd.id), name: copy_str(&cd.name), region: copy_str(&cd.region), owners: Vec::new() });
            names.push(copy_str(&cd.id));
        }
        proof {
            assert(is_last(data.cities@, i as int) == last);
            let q = kept_upto(data.cities@, i + 1);
            assert forall|a: int| 0 <= a < cities@.len() implies {
                &&& (#[trigger] cities@[a]).id@ == q[a].id@
                &&& cities@[a].name@ == q[a].name@
                &&& cities@[a].region@ == q[a].region@
                &&& cities@[a].owners@.len() == 0
                &&& names@[a]@ == q[a].id@
            } by {
                if a < before_c.len() {
                    assert(cities@[a] == before_c[a]);
                    assert(names@[a] == before_n[a]);
                }
            }
        }
        i = i + 1;
    }
    let n = cities.len();
    proof {
        lemma_nodes_after(*data, 0);
        assert(id_views(names@) =~= nodes_after(*data, 0)) by {
            assert forall|a: int| 0 <= a < names@.len() implies id_views(names@)[a] == nodes_after(*data, 0)[a] by {
                assert(cities@[a].id@ == kept_upto(data.cities@, n0 as int)[a].id@);
            }
        }
    }
    // Waypoints, in order of first mention.
    let mut k: usize = 0;
    while k < data.connections.len()
        invariant
            n == kept_cities(data.cities@).len(),
            n <= names@.len(),
            k <= data.connections@.len(),
            id_views(names@) == nodes_after(*data, k as int),
        decreases data.connections@.len() - k,
    {
        let c = &data.connections[k];
        let ghost p = names@;
        let hit = contains_str(names.as_slice(), c.from.as_str());
        if !hit {
            let x = copy_str(&c.from);
            names.push(x);
        }
        proof {
            let v = id_views(p);
            if hit {
                let j = choose|j: int| 0 <= j < p.len() && (#[trigger] p[j])@ == c.from@;
                assert(v[j] == c.from@);
                assert(v.contains(c.from@));
            } else {
                assert(!v.contains(c.from@)) by {
                    if v.contains(c.from@) {
                        let j = choose|j: int| 0 <= j < v.len() && v[j] == c.from@;
                        assert(p[j]@ == c.from@);
                    }
                }
                assert(id_views(names@) =~= v.push(c.from@));
            }
        }
        let ghost p1 = names@;
        let hit1 = contains_str(names.as_slice(), c.to.as_str());
        if !hit1 {
            let x = copy_str(&c.to);
            names.push(x);
        }
        proof {
            let v = id_views(p1);
            if hit1 {
                let j = choose|j: int| 0 <= j < p1.len() && (#[trigger] p1[j])@ == c.to@;
                assert(v[j] == c.to@);
                assert(v.contains(c.to@));
            } else {
                assert(!v.contains(c.to@)) by {
                    if v.contains(c.to@) {
                        let j = choose|j: int| 0 <= j < v.len() && v[j] == c.to@;
                        assert(p1[j]@ == c.to@);
                    }
                }
                assert(id_views(names@) =~= v.push(c.to@));
            }
            assert(id_views(names@) == nodes_after(*data, k + 1));
        }
        k = k + 1;
    }
    let ghost nodes = board_nodes(*data);
    proof {
        lemma_names_known(*data);
        assert(nodes.len() == names@.len());
    }
    let m = names.len();
    // Every connection under both ends, as nodes.
    let mut links: Vec<Vec<(usize, u32)>> = Vec::new();
    let mut u: usize = 0;
    while u < m
        invariant
            u <= m,
            links@.len() == u,
            forall|a: int| 0 <= a < u ==> (#[trigger] links@[a])@.len() == 0,
        decreases m - u,
    {
        links.push(Vec::new());
        u = u + 1;
    }
    let mut k: usize = 0;
    while k < data.connections.len()
        invariant
            m == names@.len(),
            nodes == id_views(names@),
            names_known(*data, nodes),
            names_unique(nodes),
            k <= data.connections@.len(),
            links@.len() == m,
            forall|a: int| 0 <= a < m ==> (#[trigger] links@[a])@ == adjacency(*data, nodes, a, k as int),
        decreases data.connections@.len() - k,
    {
        let c = &data.connections[k];
        proof {
            assert(name_pos(nodes, data.connections@[k as int].from@) is Some);
        }
        let f = match find_name(&names, c.from.as_str()) {
            Some(f) => f,
            None => {
                proof {
                    assert(false);
                }
                0
            },
        };
        let t = match find_name(&names, c.to.as_str()) {
            Some(t) => t,
            None => {
                proof {
                    assert(false);
                }
                0
            },
        };
        let cost = c.cost;
        let ghost before = links@;
        let mut row: Vec<(usize, u32)> = Vec::new();
        links.set_and_swap(f, &mut row);
        row.push((t, cost));
        links.set_and_swap(f, &mut row);
        let mut row2: Vec<(usize, u32)> = Vec::new();
        links.set_and_swap(t, &mut row2);
        row2.push((f, cost));
        links.set_and_swap(t, &mut row2);
        proof {
            assert forall|a: int| 0 <= a < m implies (#[trigger] links@[a])@ == adjacency(*data, nodes, a, k + 1) by {
                assert(before[a]@ == adjacency(*data, nodes, a, k as int));
            }
        }
        k = k + 1;
    }
    // Each city's connections to cities.
    let mut edges: Vec<Vec<(usize, u32)>> = Vec::new();
    let mut u: usize = 0;
    while u < n
        invariant
            n <= m,
            links@.len() == m,
            u <= n,
            edges@.len() == u,
            forall|a: int| 0 <= a < u ==> (#[trigger] edges@[a])@ == city_links(links@[a]@, n as int),
        decreases n - u,
    {
        edges.push(filter_city_links(&links[u], n));
        u = u + 1;
    }
    let mut waypoints: Vec<String> = Vec::new();
    let mut w: usize = n;
    while w < m
        invariant
            n <= w <= m,
            m == names@.len(),
            waypoints@.len() == w - n,
            forall|a: int| 0 <= a < w - n ==> (#[trigger] waypoints@[a])@ == names@[n + a]@,
        decreases m - w,
    {
        waypoints.push(copy_str(&names[w]));
        w = w + 1;
    }
    let mut regions: Vec<String> = Vec::new();
    let mut i: usize = 0;
    while i < data.regions.len()
        invariant
            i <= data.regions@.len(),
            regions@.len() == i,
            forall|a: int| 0 <= a < i ==> (#[trigger] regions@[a])@ == data.regions@[a]@,
        decreases data.regions@.len() - i,
    {
        regions.push(copy_str(&data.regions[i]));
        i = i + 1;
    }
    let map = GameMap { name: copy_str(&data.name), regions, cities, edges, waypoints, links };
    proof {
        let kept = kept_cities(data.cities@);
        lemma_nodes_after(*data, data.connections@.len() as int);
        assert forall|u: int, e: int| 0 <= u < map.links.len() && 0 <= e < map.links[u].len() implies
            (#[trigger] map.links[u][e]).0 < map.links.len() by {
            lemma_adjacency_bounds(*data, nodes, u, data.connections@.len() as int);
            assert(map.links[u]@[e] == adjacency(*data, nodes, u, data.connections@.len() as int)[e]);
        }
        assert forall|u: int, e: int| 0 <= u < map.edges.len() && 0 <= e < map.edges[u].len() implies
            (#[trigger] map.edges[u][e]).0 < map.cities.len() by {
            lemma_city_links_from(map.links@[u]@, n as int, e);
        }
        assert forall|a: int, b: int| 0 <= a < b < map.cities.len() implies (#[trigger] map.cities[a]).id@ != (#[trigger] map.cities[b]).id@ by {
            assert(nodes[a] == kept[a].id@);
            assert(nodes[b] == kept[b].id@);
        }
        assert forall|a: int, b: int| 0 <= a < b < map.waypoints.len() implies (#[trigger] map.waypoints[a])@ != (#[trigger] map.waypoints[b])@ by {
            assert(map.waypoints[a]@ == nodes[n + a]);
            assert(map.waypoints[b]@ == nodes[n + b]);
        }
        assert forall|a: int, c: int| 0 <= a < map.waypoints.len() && 0 <= c < map.cities.len() implies (#[trigger] map.waypoints[a])@ != (#[trigger] map.cities[c]).id@ by {
            assert(map.waypoints[a]@ == nodes[n + a]);
            assert(nodes[c] == kept[c].id@);
        }
        assert forall|a: int| 0 <= a < n implies (#[trigger] map.cities@[a]).id@ == kept[a].id@ by {}
        lemma_built_symmetric(map, *data);
    }
    map
}

/// Some city of `map` has id `id`.
pub open spec fn has_city_id(map: &GameMap, id: Seq<char>) -> bool {
    exists|j: int| 0 <= j < map.cities@.len() && (#[trigger] map.cities@[j]).id@ == id
}

/// Whether `map` is the default board: exactly its cities, by id.
pub open spec fn spec_matches_default(map: &GameMap) -> bool {
    &&& map.cities@.len() == N_CITIES
    &&& forall|i: int| 0 <= i < N_CITIES ==> #[trigger] has_city_id(map, spec_city_id(i))
}

/// Whether `map` is the default board the policy's encoding was compiled
/// against; other boards must be played by the heuristic.
pub fn map_matches_default(map: &GameMap) -> (r: bool)
    ensures
        r == spec_matches_default(map),
{
    if map.cities.len() != N_CITIES {
        return false;
    }
    let mut i: usize = 0;
    while i < N_CITIES
        invariant
            map.cities@.len() == N_CITIES,
            i <= N_CITIES,
            forall|a: int| 0 <= a < i ==> #[trigger] has_city_id(map, spec_city_id(a)),
        decreases N_CITIES - i,
    {
        let want = city_id(i);
        let mut found = false;
        let mut j: usize = 0;
        while j < map.cities.len()
            invariant
                j <= map.cities@.len(),
                want@ == spec_city_id(i as int),
                !found ==> forall|b: int| 0 <= b < j ==> (#[trigger] map.cities@[b]).id@ != want@,
                found ==> exists|b: int| 0 <= b < map.cities@.len() && (#[trigger] map.cities@[b]).id@ == want@,
            decreases map.cities@.len() - j,
        {
            if !found && str_eq(map.cities[j].id.as_str(), want) {
                found = true;
            }
            j = j + 1;
        }
        if !found {
            proof {
                assert(!spec_matches_default(map)) by {
                    if spec_matches_default(map) {
                        assert(has_city_id(map, spec_city_id(i as int)));
                    }
                }
            }
            return false;
        }
        i = i + 1;
    }
    true
}


/// The first `k` connections' lists only grow: each list of `k - 1` is a
/// prefix of the list of `k`.
proof fn lemma_adjacency_prefix(data: MapData, nodes: Seq<Seq<char>>, u: int, k: int, e: int)
    requires
        0 <= e < adjacency(data, nodes, u, k - 1).len(),
        k >= 1,
    ensures
        e < adjacency(data, nodes, u, k).len(),
        adjacency(data, nodes, u, k)[e] == adjacency(data, nodes, u, k - 1)[e],
{
}

/// Every entry of a node's list has its twin in the list of the other end.
proof fn lemma_adjacency_reverse(data: MapData, nodes: Seq<Seq<char>>, u: int, k: int, e: int) -> (e2: int)
    requires
        names_known(data, nodes),
        nodes.len() <= usize::MAX,
        0 <= k <= data.connections@.len(),
        0 <= e < adjacency(data, nodes, u, k).len(),
    ensures
        ({
            let (w, c) = adjacency(data, nodes, u, k)[e];
            &&& 0 <= e2 < adjacency(data, nodes, w as int, k).len()
            &&& adjacency(data, nodes, w as int, k)[e2] == (u as usize, c)
        }),
    decreases k,
{
    if k <= 0 {
        assert(adjacency(data, nodes, u, k).len() == 0);
    }
    let a = adjacency(data, nodes, u, k - 1);
    let con = data.connections@[k - 1];
    let f = name_pos(nodes, con.from@)->Some_0;
    let t = name_pos(nodes, con.to@)->Some_0;
    assert(name_pos(nodes, con.from@) is Some);
    assert(name_pos(nodes, con.to@) is Some);
    assert(0 <= f < nodes.len() && 0 <= t < nodes.len());
    assert((t as usize) as int == t && (f as usize) as int == f);
    let (w, c) = adjacency(data, nodes, u, k)[e];
    if e < a.len() {
        lemma_adjacency_prefix(data, nodes, u, k, e);
        let e1 = lemma_adjacency_reverse(data, nodes, u, k - 1, e);
        lemma_adjacency_prefix(data, nodes, w as int, k, e1);
        e1
    } else {
        let a1 = if f == u { a.push((t as usize, con.cost)) } else { a };
        assert(adjacency(data, nodes, u, k) == (if t == u { a1.push((f as usize, con.cost)) } else { a1 }));
        let aw = adjacency(data, nodes, w as int, k - 1);
        if f == u && e == a.len() {
            assert(w as int == t);
            let aw1 = if f == t { aw.push((t as usize, con.cost)) } else { aw };
            aw1.len() as int
        } else {
            assert(t == u);
            assert(w as int == f);
            let fw = adjacency(data, nodes, f, k - 1);
            fw.len() as int
        }
    }
}

/// Each city link is one of the links.
proof fn lemma_city_links_from(s: Seq<(usize, u32)>, n: int, k: int)
    requires
        0 <= k < city_links(s, n).len(),
    ensures
        (city_links(s, n)[k].0 as int) < n,
        exists|e: int| 0 <= e < s.len() && s[e] == city_links(s, n)[k],
    decreases s.len(),
{
    let p = city_links(s.drop_last(), n);
    if k < p.len() {
        lemma_city_links_from(s.drop_last(), n, k);
        let e = choose|e: int| 0 <= e < s.drop_last().len() && s.drop_last()[e] == p[k];
        assert(s[e] == s.drop_last()[e]);
    } else {
        assert(city_links(s, n)[k] == s.last());
        assert(s[s.len() - 1] == s.last());
    }
}

/// Each link to a city is a city link.
proof fn lemma_city_links_to(s: Seq<(usize, u32)>, n: int, e: int)
    requires
        0 <= e < s.len(),
        (s[e].0 as int) < n,
    ensures
        exists|k: int| 0 <= k < city_links(s, n).len() && city_links(s, n)[k] == s[e],
    decreases s.len(),
{
    if e < s.len() - 1 {
        lemma_city_links_to(s.drop_last(), n, e);
        let p = city_links(s.drop_last(), n);
        let k = choose|k: int| 0 <= k < p.len() && p[k] == s.drop_last()[e];
        assert(city_links(s, n)[k] == p[k]);
    } else {
        let q = city_links(s, n);
        assert(q[q.len() - 1] == s.last());
    }
}

/// A board built from map data lists every connection between cities both
/// ways.
pub proof fn lemma_built_symmetric(map: GameMap, data: MapData)
    requires
        built_from(map, data),
        map.wf(),
    ensures
        symmetric(&map),
{
    let kk = data.connections@.len() as int;
    let nodes = board_nodes(data);
    let n = map.cities@.len() as int;
    lemma_names_known(data);
    assert(nodes.len() == map.links.len());
    assert forall|u: int, k: int| 0 <= u < map.edges@.len() && 0 <= k < map.edges@[u]@.len() implies #[trigger] has_reverse(&map, u, k) by {
        assert(map.edges@[u]@ == city_links(map.links@[u]@, n));
        lemma_city_links_from(map.links@[u]@, n, k);
        let e = choose|e: int| 0 <= e < map.links@[u]@.len() && map.links@[u]@[e] == city_links(map.links@[u]@, n)[k];
        assert(map.links@[u]@ == adjacency(data, nodes, u, kk));
        let e2 = lemma_adjacency_reverse(data, nodes, u, kk, e);
        let w = map.edges@[u]@[k].0 as int;
        assert(map.edges[u][k].0 < map.cities.len());
        assert(map.links@[w]@ == adjacency(data, nodes, w, kk));
        lemma_city_links_to(map.links@[w]@, n, e2);
        let k2 = choose|k2: int| 0 <= k2 < city_links(map.links@[w]@, n).len() && city_links(map.links@[w]@, n)[k2] == map.links@[w]@[e2];
        assert(map.edges@[w]@ == city_links(map.links@[w]@, n));
        assert(reverse_at(&map, u, k, k2));
    }
}

} // verus!
