use powergrid::board::{from_data, CityData, ConnectionData, MapData};
use powergrid::map::GameMap;
use powergrid::preview::{optimal_build_order, simulate_route_cost};

fn city(id: &str) -> CityData {
    CityData { id: id.to_string(), name: id.to_uppercase(), region: "r".to_string() }
}

fn conn(from: &str, to: &str, cost: u32) -> ConnectionData {
    ConnectionData { from: from.to_string(), to: to.to_string(), cost }
}

fn diamond() -> GameMap {
    from_data(&MapData {
        name: "sample".to_string(),
        regions: vec!["r".to_string()],
        cities: vec![city("a"), city("b"), city("c"), city("d")],
        connections: vec![conn("a", "b", 2), conn("b", "c", 2), conn("a", "c", 10), conn("c", "d", 1)],
    })
}

fn names(v: &[&str]) -> Vec<String> {
    v.iter().map(|s| s.to_string()).collect()
}

#[test]
fn route_cost_grows_the_network_city_by_city() {
    let map = diamond();
    assert_eq!(simulate_route_cost(&map, &names(&["a"]), &names(&["d", "b", "c"])), 8);
    assert_eq!(simulate_route_cost(&map, &names(&["a"]), &names(&["b", "c", "d"])), 5);
    assert_eq!(simulate_route_cost(&map, &[], &names(&["b", "c"])), 2);
    assert_eq!(simulate_route_cost(&map, &names(&["a"]), &names(&["zz"])), 0);
}

#[test]
fn preview_orders_the_cheapest_way() {
    let map = diamond();
    let order = optimal_build_order(&map, &names(&["a"]), &names(&["d", "b", "c"]));
    assert_eq!(order, names(&["b", "c", "d"]));
    assert!(simulate_route_cost(&map, &names(&["a"]), &order) <= simulate_route_cost(&map, &names(&["a"]), &names(&["d", "b", "c"])));
}

#[test]
fn preview_keeps_short_selections() {
    let map = diamond();
    assert!(optimal_build_order(&map, &names(&["a"]), &[]).is_empty());
    assert_eq!(optimal_build_order(&map, &names(&["a"]), &names(&["d"])), names(&["d"]));
}

#[test]
fn preview_walks_cheapest_next_for_long_selections() {
    let ids = ["c0", "c1", "c2", "c3", "c4", "c5", "c6", "c7", "c8", "c9"];
    let cities: Vec<CityData> = ids.iter().map(|id| city(id)).collect();
    let connections: Vec<ConnectionData> = (0..ids.len() - 1).map(|i| conn(ids[i], ids[i + 1], 1 + i as u32)).collect();
    let map = from_data(&MapData { name: "line".to_string(), regions: vec!["r".to_string()], cities, connections });
    let selected = names(&["c9", "c3", "c1", "c5", "c2", "c8", "c4", "c7", "c6"]);
    let order = optimal_build_order(&map, &names(&["c0"]), &selected);
    assert_eq!(order, names(&["c1", "c2", "c3", "c4", "c5", "c6", "c7", "c8", "c9"]));
}

#[test]
fn preview_order_beats_every_rearrangement() {
    let map = diamond();
    let owned = names(&["a"]);
    let picked = ["d", "b", "c"];
    let best = optimal_build_order(&map, &owned, &names(&picked));
    let best_cost = simulate_route_cost(&map, &owned, &best);
    let perms = [[0, 1, 2], [0, 2, 1], [1, 0, 2], [1, 2, 0], [2, 0, 1], [2, 1, 0]];
    for p in perms {
        let order: Vec<String> = p.iter().map(|&i| picked[i].to_string()).collect();
        assert!(best_cost <= simulate_route_cost(&map, &owned, &order), "{order:?} is cheaper");
    }
    assert_eq!(best_cost, 5);
}
