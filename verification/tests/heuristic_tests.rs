use powergrid::action::Action;
use powergrid::heuristic::{decide_discard, decide_discard_resource, decide_power_cities_fuel};
use powergrid::map::GameMap;
use powergrid::market::{PlantMarket, ResourceMarket};
use powergrid::state::{GameState, Phase};
use powergrid::types::{PlantKind, Player, PlayerId, PlayerResources, PowerPlant};

fn plant(number: u8, kind: PlantKind, cost: u8, cities: u8) -> PowerPlant {
    PowerPlant { number, kind, cost, cities }
}

fn game(p1: PlayerId, phase: Phase, plants: Vec<PowerPlant>, resources: PlayerResources) -> GameState {
    GameState {
        phase,
        players: vec![Player { id: p1, money: 50, plants, resources }],
        player_order: vec![p1],
        market: PlantMarket { actual: vec![], future: vec![], in_step3: false, discount_token: None },
        resources: ResourceMarket::initial(),
        map: GameMap { name: "empty".to_string(), regions: vec![], cities: vec![], edges: vec![], waypoints: vec![], links: vec![] },
        step: 1,
        round: 1,
        end_game_cities: 17,
        active_regions: vec![],
    }
}

fn fuel(coal: u8, oil: u8, gas: u8) -> PlayerResources {
    PlayerResources { coal, oil, gas, uranium: 0 }
}

#[test]
fn discard_drops_the_weakest_other_plant() {
    let new_plant = plant(30, PlantKind::Coal, 3, 6);
    let plants = vec![plant(10, PlantKind::Coal, 2, 2), plant(12, PlantKind::Oil, 3, 2), plant(20, PlantKind::Gas, 3, 5), new_plant];
    let state = game(1, Phase::DiscardPlant { player: 1, new_plant }, plants, fuel(0, 0, 0));
    // Scores: #10 = 198, #12 = 197, #20 = 497; #12 is weakest.
    assert!(matches!(decide_discard(&state, 1, &new_plant), Some(Action::DiscardPlant { plant_number: 12 })));
    assert!(decide_discard(&state, 9, &new_plant).is_none());
}

#[test]
fn resource_discard_drops_gas_first() {
    let state = game(1, Phase::DiscardResource { player: 1, drop_total: 3 }, vec![], fuel(0, 4, 1));
    assert!(matches!(decide_discard_resource(&state, 1, 3), Some(Action::DiscardResource { gas: 1, oil: 2 })));
    assert!(matches!(decide_discard_resource(&state, 1, 1), Some(Action::DiscardResource { gas: 1, oil: 0 })));
}

#[test]
fn hybrid_split_uses_oil_left_after_pure_plants() {
    let plants = vec![plant(5, PlantKind::GasOrOil, 3, 2), plant(10, PlantKind::Oil, 1, 1)];
    let phase = Phase::PowerCitiesFuel { player: 1, plant_numbers: vec![5, 10], hybrid_cost: 3 };
    let state = game(1, phase, plants, fuel(0, 3, 3));
    assert!(matches!(decide_power_cities_fuel(&state, 1, 3, true), Some(Action::PowerCitiesFuel { gas: 1, oil: 2 })));
    assert!(matches!(decide_power_cities_fuel(&state, 1, 3, false), Some(Action::PowerCitiesFuel { gas: 3, oil: 0 })));
    let other = game(1, Phase::Bureaucracy { remaining: vec![1] }, vec![], fuel(0, 3, 3));
    assert!(decide_power_cities_fuel(&other, 1, 3, true).is_none());
}
