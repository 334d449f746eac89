use powergrid::board::{from_data, map_matches_default, CityData, ConnectionData, MapData};
use powergrid::encoding::{city_id, N_CITIES};
use powergrid::map::GameMap;

fn city(id: &str) -> CityData {
    CityData { id: id.to_string(), name: id.to_uppercase(), region: "r".to_string() }
}

fn conn(from: &str, to: &str, cost: u32) -> ConnectionData {
    ConnectionData { from: from.to_string(), to: to.to_string(), cost }
}

fn sample_map() -> GameMap {
    from_data(&MapData {
        name: "sample".to_string(),
        regions: vec!["r".to_string()],
        cities: vec![city("a"), city("b"), city("c"), city("d")],
        connections: vec![conn("a", "b", 2), conn("b", "c", 2), conn("a", "c", 10), conn("c", "d", 1)],
    })
}

fn has_edge(net: &powergrid::network::ConnectionNetwork, x: &str, y: &str) -> bool {
    net.edges.iter().any(|e| (e.from == x && e.to == y) || (e.from == y && e.to == x))
}

#[test]
fn exact_network_connects_to_existing_root() {
    let map = sample_map();
    let network = map
        .connection_network_for(&["a".to_string()], &["c".to_string(), "d".to_string()])
        .expect("network should exist");
    assert_eq!(network.route_cost, 5);
    assert!(has_edge(&network, "a", "b"));
    assert!(has_edge(&network, "b", "c"));
    assert!(has_edge(&network, "c", "d"));
}

#[test]
fn exact_network_without_owned_uses_minimum_tree() {
    let map = sample_map();
    let network = map
        .connection_network_for(&[], &["a".to_string(), "c".to_string(), "d".to_string()])
        .expect("network should exist");
    assert_eq!(network.route_cost, 5);
}

#[test]
fn network_edges_are_sorted_and_exact() {
    let map = sample_map();
    let network = map.connection_network_for(&["a".to_string()], &["d".to_string(), "c".to_string(), "d".to_string()]).unwrap();
    let edges: Vec<(String, String)> = network.edges.iter().map(|e| (e.from.clone(), e.to.clone())).collect();
    assert_eq!(
        edges,
        vec![("a".to_string(), "b".to_string()), ("b".to_string(), "c".to_string()), ("c".to_string(), "d".to_string())]
    );
}

#[test]
fn network_edge_cases() {
    let map = sample_map();
    let empty = map.connection_network_for(&["a".to_string()], &[]).unwrap();
    assert_eq!(empty.route_cost, 0);
    assert!(empty.edges.is_empty());
    assert!(map.connection_network_for(&[], &["zz".to_string()]).is_none(), "unknown target");
    assert!(map.connection_network_for(&["zz".to_string()], &["a".to_string()]).is_none(), "no owned city on the board");
    let own = map.connection_network_for(&["c".to_string()], &["c".to_string()]).unwrap();
    assert_eq!(own.route_cost, 0);
    assert!(own.edges.is_empty());
}

#[test]
fn network_is_none_when_disconnected() {
    let map = from_data(&MapData {
        name: "islands".to_string(),
        regions: vec!["r".to_string()],
        cities: vec![city("a"), city("b"), city("c")],
        connections: vec![conn("a", "b", 3)],
    });
    assert!(map.connection_network_for(&["a".to_string()], &["c".to_string()]).is_none());
    assert_eq!(map.connection_network_for(&["a".to_string()], &["b".to_string()]).unwrap().route_cost, 3);
}

#[test]
fn connection_cost_follows_cheapest_route() {
    let map = sample_map();
    assert_eq!(map.connection_cost_to(&["a".to_string()], "c"), Some(4));
    assert_eq!(map.connection_cost_to(&["a".to_string()], "d"), Some(5));
    assert_eq!(map.connection_cost_to(&[], "d"), Some(0));
    assert_eq!(map.connection_cost_to(&["d".to_string()], "d"), Some(0));
    assert_eq!(map.connection_cost_to(&["a".to_string()], "zz"), None);
    // Growing the network never makes a city dearer.
    assert_eq!(map.connection_cost_to(&["a".to_string(), "c".to_string()], "d"), Some(1));
}

#[test]
fn map_data_is_read_as_given() {
    // An id listed twice keeps its later entry.
    let later = CityData { id: "a".to_string(), name: "Second".to_string(), region: "s".to_string() };
    let dup = MapData { name: "x".to_string(), regions: vec![], cities: vec![city("a"), city("b"), later], connections: vec![] };
    let m = from_data(&dup);
    assert_eq!(m.cities.len(), 2);
    assert_eq!(m.cities[0].id, "b");
    assert_eq!(m.cities[1].id, "a");
    assert_eq!(m.cities[1].name, "Second");
    // A connection to a name no city has leads to a waypoint that routes pass.
    let unknown = MapData {
        name: "x".to_string(),
        regions: vec![],
        cities: vec![city("a"), city("b")],
        connections: vec![conn("a", "q", 1), conn("q", "b", 2), conn("a", "b", 9)],
    };
    let m = from_data(&unknown);
    assert_eq!(m.cities.len(), 2);
    assert_eq!(m.waypoints, vec!["q".to_string()]);
    assert_eq!(m.edges[0], vec![(1, 9)]);
    assert_eq!(m.links[0], vec![(2, 1), (1, 9)]);
    assert_eq!(m.connection_cost_to(&["a".to_string()], "b"), Some(3));
    assert_eq!(m.connection_cost_to(&["a".to_string()], "q"), Some(1));
    // The network only runs between cities.
    let net = m.connection_network_for(&["a".to_string()], &["b".to_string()]).unwrap();
    assert_eq!(net.route_cost, 9);
    let dear = MapData { name: "x".to_string(), regions: vec![], cities: vec![city("a"), city("b")], connections: vec![conn("a", "b", 70000)] };
    assert_eq!(from_data(&dear).edges[0], vec![(1, 70000)]);
    let map = sample_map();
    assert_eq!(map.cities.len(), 4);
    assert_eq!(map.edges[1], vec![(0, 2), (2, 2)]);
    assert_eq!(map.edges[2], vec![(1, 2), (0, 10), (3, 1)]);
}

#[test]
fn map_matches_default_distinguishes_maps() {
    assert!(!map_matches_default(&sample_map()));
    let cities: Vec<CityData> = (0..N_CITIES).map(|i| city(city_id(i))).collect();
    let usa = from_data(&MapData { name: "USA".to_string(), regions: vec!["r".to_string()], cities, connections: vec![] });
    assert!(map_matches_default(&usa));
}

#[test]
fn one_target_network_costs_its_connection_route() {
    let map = sample_map();
    for t in ["b", "c", "d"] {
        let net = map.connection_network_for(&["a".to_string()], &[t.to_string()]).unwrap();
        assert_eq!(Some(net.route_cost), map.connection_cost_to(&["a".to_string()], t));
    }
}

#[test]
fn network_joins_targets_to_any_owned_city() {
    // a-b 1, b-c 10, c-d 1: owning a and d, joining b and c takes a-b and c-d.
    let map = from_data(&MapData {
        name: "line".to_string(),
        regions: vec!["r".to_string()],
        cities: vec![city("a"), city("b"), city("c"), city("d")],
        connections: vec![conn("a", "b", 1), conn("b", "c", 10), conn("c", "d", 1)],
    });
    let net = map
        .connection_network_for(&["a".to_string(), "d".to_string()], &["b".to_string(), "c".to_string()])
        .unwrap();
    assert_eq!(net.route_cost, 2);
    let edges: Vec<(String, String)> = net.edges.iter().map(|e| (e.from.clone(), e.to.clone())).collect();
    assert_eq!(edges, vec![("a".to_string(), "b".to_string()), ("c".to_string(), "d".to_string())]);
}

#[test]
fn route_costs_past_u32_saturate() {
    let data = MapData {
        name: "far".to_string(),
        regions: vec![],
        cities: vec![city("a"), city("b"), city("c")],
        connections: vec![conn("a", "b", 4_000_000_000), conn("b", "c", 4_000_000_000)],
    };
    let map = from_data(&data);
    assert_eq!(map.connection_cost_to(&["a".to_string()], "b"), Some(4_000_000_000));
    assert_eq!(map.connection_cost_to(&["a".to_string()], "c"), Some(u32::MAX));
}
