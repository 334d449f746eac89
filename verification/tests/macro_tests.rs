use powergrid::action::Action;
use powergrid::encoding::{city_id, N_CITIES};
use powergrid::macros::{
    expand_macro, legal_macros, macro_current_actor, teacher_macro_id, AUCTION_PASS, AUCTION_RAISE,
    BUILD_COUNT_BASE, BUY_SUBSET_BASE, DISCARD_PLANT_BASE, N_MACROS,
};
use powergrid::map::{City, GameMap};
use powergrid::market::{PlantMarket, ResourceMarket};
use powergrid::state::{ActiveBid, GameState, Phase};
use powergrid::types::{PlantKind, Player, PlayerId, PlayerResources, PowerPlant, Resource};

fn plant(number: u8, kind: PlantKind, cost: u8, cities: u8) -> PowerPlant {
    PowerPlant { number, kind, cost, cities }
}

/// Three cities in a row, a-b costing 5 and b-c costing 7, all in region "r".
fn line_board() -> GameMap {
    let mk = |id: &str| City { id: id.to_string(), name: id.to_uppercase(), region: "r".to_string(), owners: vec![] };
    GameMap {
        name: "line".to_string(),
        regions: vec!["r".to_string()],
        cities: vec![mk("a"), mk("b"), mk("c")],
        edges: vec![vec![(1, 5)], vec![(0, 5), (2, 7)], vec![(1, 7)]],
        waypoints: vec![],
        links: vec![vec![(1, 5)], vec![(0, 5), (2, 7)], vec![(1, 7)]],
    }
}

fn player(id: PlayerId, money: u32) -> Player {
    Player { id, money, plants: vec![], resources: PlayerResources { coal: 0, oil: 0, gas: 0, uranium: 0 } }
}

fn game(ids: &[PlayerId], phase: Phase, map: GameMap) -> GameState {
    GameState {
        phase,
        players: ids.iter().map(|&id| player(id, 50)).collect(),
        player_order: ids.to_vec(),
        market: PlantMarket {
            actual: vec![plant(3, PlantKind::Oil, 2, 1), plant(4, PlantKind::Coal, 2, 1)],
            future: vec![plant(7, PlantKind::Oil, 3, 2)],
            in_step3: false,
            discount_token: None,
        },
        resources: ResourceMarket::initial(),
        map,
        step: 1,
        round: 1,
        end_game_cities: 17,
        active_regions: vec!["r".to_string()],
    }
}

fn auction(bid: Option<ActiveBid>) -> Phase {
    Phase::Auction { current_bidder_idx: 0, active_bid: bid, bought: vec![], passed: vec![] }
}

#[test]
fn auction_macros_expand_to_single_moves() {
    let p1: PlayerId = 1;
    let state = game(&[p1], auction(None), line_board());
    assert_eq!(macro_current_actor(&state), Some(p1));
    let nominate = expand_macro(&state, p1, 1).expect("slot 1 exists");
    assert!(matches!(nominate.as_slice(), [Action::SelectPlant { plant_number: 4 }]));
    assert!(expand_macro(&state, p1, 2).is_none(), "only two plants on sale");
    assert!(matches!(expand_macro(&state, p1, AUCTION_PASS).unwrap().as_slice(), [Action::PassAuction]));
    assert!(expand_macro(&state, p1, AUCTION_RAISE).is_none(), "no bid to raise");
}

#[test]
fn raise_is_one_over_the_standing_bid() {
    let p1: PlayerId = 1;
    let p2: PlayerId = 2;
    let bid = ActiveBid { plant_number: 3, amount: 9, highest_bidder: p2, remaining_bidders: vec![p1, p2] };
    let state = game(&[p1, p2], auction(Some(bid)), line_board());
    let raise = expand_macro(&state, p1, AUCTION_RAISE).unwrap();
    assert!(matches!(raise.as_slice(), [Action::PlaceBid { amount: 10 }]));
    assert!(expand_macro(&state, p1, 0).is_none(), "no nominating during a bid");
}

#[test]
fn discard_macros_go_by_plant_number() {
    let p1: PlayerId = 1;
    let mut state = game(&[p1], Phase::DiscardPlant { player: p1, new_plant: plant(30, PlantKind::Coal, 3, 6) }, line_board());
    state.players[0].plants = vec![plant(20, PlantKind::Coal, 2, 4), plant(8, PlantKind::Oil, 2, 2), plant(30, PlantKind::Coal, 3, 6), plant(13, PlantKind::Wind, 0, 1)];
    let slot0 = expand_macro(&state, p1, DISCARD_PLANT_BASE).unwrap();
    assert!(matches!(slot0.as_slice(), [Action::DiscardPlant { plant_number: 8 }]));
    let slot2 = expand_macro(&state, p1, DISCARD_PLANT_BASE + 2).unwrap();
    assert!(matches!(slot2.as_slice(), [Action::DiscardPlant { plant_number: 20 }]));
    let teacher = teacher_macro_id(&state, p1, &Action::DiscardPlant { plant_number: 13 });
    assert_eq!(teacher, Some(DISCARD_PLANT_BASE + 1));
}

#[test]
fn build_counts_take_the_cheapest_reachable_cities() {
    let p1: PlayerId = 1;
    let mut state = game(&[p1], Phase::BuildCities { remaining: vec![p1] }, line_board());
    state.map.cities[0].owners.push(p1);
    state.players[0].money = 50;
    let none = expand_macro(&state, p1, BUILD_COUNT_BASE).unwrap();
    assert!(matches!(none.as_slice(), [Action::DoneBuilding]));
    let one = expand_macro(&state, p1, BUILD_COUNT_BASE + 1).unwrap();
    match one.as_slice() {
        [Action::BuildCities { city_ids }] => assert_eq!(city_ids, &vec!["b".to_string()]),
        other => panic!("unexpected {other:?}"),
    }
    let two = expand_macro(&state, p1, BUILD_COUNT_BASE + 2).unwrap();
    match two.as_slice() {
        // b: 5 + 10, then c from the grown network: 7 + 10.
        [Action::BuildCities { city_ids }] => assert_eq!(city_ids, &vec!["b".to_string(), "c".to_string()]),
        other => panic!("unexpected {other:?}"),
    }
}

#[test]
fn build_stops_at_the_cash() {
    let p1: PlayerId = 1;
    let mut state = game(&[p1], Phase::BuildCities { remaining: vec![p1] }, line_board());
    state.map.cities[0].owners.push(p1);
    state.players[0].money = 20;
    let three = expand_macro(&state, p1, BUILD_COUNT_BASE + 3).unwrap();
    match three.as_slice() {
        [Action::BuildCities { city_ids }] => assert_eq!(city_ids, &vec!["b".to_string()]),
        other => panic!("unexpected {other:?}"),
    }
}

#[test]
fn buy_macro_is_one_batch_for_the_chosen_plants() {
    let p1: PlayerId = 1;
    let mut state = game(&[p1], Phase::BuyResources { remaining: vec![p1] }, line_board());
    state.players[0].plants = vec![plant(10, PlantKind::Coal, 2, 2), plant(12, PlantKind::Oil, 1, 1)];
    state.players[0].money = 100;
    let all = expand_macro(&state, p1, BUY_SUBSET_BASE + 0b11).unwrap();
    match all.as_slice() {
        [Action::BuyResourceBatch { purchases }] => assert_eq!(purchases, &vec![(Resource::Coal, 2), (Resource::Oil, 1)]),
        other => panic!("unexpected {other:?}"),
    }
    let empty = expand_macro(&state, p1, BUY_SUBSET_BASE).unwrap();
    assert!(matches!(empty.as_slice(), [Action::BuyResourceBatch { purchases }] if purchases.is_empty()));
}

#[test]
fn legal_macros_keep_the_lowest_of_equal_expansions() {
    let p1: PlayerId = 1;
    let mut state = game(&[p1], Phase::BuildCities { remaining: vec![p1] }, line_board());
    state.map.cities[0].owners.push(p1);
    state.players[0].money = 20;
    let accepted = vec![true; N_MACROS];
    let legal = legal_macros(&state, p1, &accepted);
    assert_eq!(legal.len(), N_MACROS);
    // Build nothing, build one; larger counts can afford no more than one.
    let legal_ids: Vec<usize> = (0..N_MACROS).filter(|&i| legal[i]).collect();
    assert_eq!(legal_ids, vec![BUILD_COUNT_BASE as usize, BUILD_COUNT_BASE as usize + 1]);

    let mut refused = accepted.clone();
    refused[BUILD_COUNT_BASE as usize + 1] = false;
    let legal = legal_macros(&state, p1, &refused);
    let legal_ids: Vec<usize> = (0..N_MACROS).filter(|&i| legal[i]).collect();
    // With count one refused, count two (the same build) is the lowest left.
    assert_eq!(legal_ids, vec![BUILD_COUNT_BASE as usize, BUILD_COUNT_BASE as usize + 2]);
}

#[test]
fn teacher_labels_auction_moves() {
    let p1: PlayerId = 1;
    let state = game(&[p1], auction(None), line_board());
    assert_eq!(teacher_macro_id(&state, p1, &Action::SelectPlant { plant_number: 4 }), Some(1));
    assert_eq!(teacher_macro_id(&state, p1, &Action::SelectPlant { plant_number: 7 }), None);
    assert_eq!(teacher_macro_id(&state, p1, &Action::PassAuction), Some(AUCTION_PASS));
    assert_eq!(teacher_macro_id(&state, p1, &Action::PlaceBid { amount: 40 }), Some(AUCTION_RAISE));
    assert_eq!(teacher_macro_id(&state, p1, &Action::DoneBuying), None);
}

#[test]
fn teacher_labels_builds_by_count() {
    let p1: PlayerId = 1;
    let mut state = game(&[p1], Phase::BuildCities { remaining: vec![p1] }, line_board());
    state.map.cities[0].owners.push(p1);
    state.players[0].money = 50;
    let both = Action::BuildCities { city_ids: vec!["b".to_string(), "c".to_string()] };
    assert_eq!(teacher_macro_id(&state, p1, &both), Some(BUILD_COUNT_BASE + 2));
    assert_eq!(teacher_macro_id(&state, p1, &Action::DoneBuilding), Some(BUILD_COUNT_BASE));
    let far = Action::BuildCities { city_ids: vec!["c".to_string()] };
    assert_eq!(teacher_macro_id(&state, p1, &far), None);
}

#[test]
fn no_macro_outside_macro_phases() {
    let p1: PlayerId = 1;
    let state = game(&[p1], Phase::Bureaucracy { remaining: vec![p1] }, line_board());
    assert_eq!(macro_current_actor(&state), None);
    for id in 0..N_MACROS as u16 {
        assert!(expand_macro(&state, p1, id).is_none());
    }
}

#[test]
fn default_board_ids_are_sorted() {
    for i in 1..N_CITIES {
        assert!(city_id(i - 1) < city_id(i));
    }
}

/// At every kind of macro decision point some macro is legal, and the
/// teacher's label for a move the menu expresses is among the legal ones
/// (the game accepting every expansion).
#[test]
fn legal_macros_never_empty_in_macro_phases() {
    let p1: PlayerId = 1;
    let p2: PlayerId = 2;
    let all = vec![true; N_MACROS];

    let opening = game(&[p1, p2], auction(None), line_board());
    let legal = legal_macros(&opening, p1, &all);
    assert!(legal.iter().any(|&b| b), "no legal macro at phase {:?}", opening.phase);
    let t = teacher_macro_id(&opening, p1, &Action::SelectPlant { plant_number: 3 }).expect("teacher macro");
    assert!(legal[t as usize], "teacher macro {t} not in legal set");

    let bid = ActiveBid { plant_number: 3, amount: 5, highest_bidder: p2, remaining_bidders: vec![p1, p2] };
    let bidding = game(&[p1, p2], auction(Some(bid)), line_board());
    let legal = legal_macros(&bidding, p1, &all);
    assert!(legal.iter().any(|&b| b), "no legal macro at phase {:?}", bidding.phase);
    let t = teacher_macro_id(&bidding, p1, &Action::PassAuction).expect("teacher macro");
    assert!(legal[t as usize], "teacher macro {t} not in legal set");

    let mut building = game(&[p1, p2], Phase::BuildCities { remaining: vec![p1] }, line_board());
    building.map.cities[0].owners.push(p1);
    let legal = legal_macros(&building, p1, &all);
    assert!(legal.iter().any(|&b| b), "no legal macro at phase {:?}", building.phase);
    let heuristic = Action::BuildCities { city_ids: vec!["b".to_string()] };
    let t = teacher_macro_id(&building, p1, &heuristic).expect("teacher macro");
    assert!(legal[t as usize], "teacher macro {t} not in legal set");

    let mut buying = game(&[p1, p2], Phase::BuyResources { remaining: vec![p1] }, line_board());
    buying.players[0].plants = vec![plant(10, PlantKind::Coal, 2, 2)];
    let legal = legal_macros(&buying, p1, &all);
    assert!(legal.iter().any(|&b| b), "no legal macro at phase {:?}", buying.phase);
    let heuristic = Action::BuyResourceBatch { purchases: vec![(Resource::Coal, 2)] };
    let t = teacher_macro_id(&buying, p1, &heuristic).expect("teacher macro");
    assert!(legal[t as usize], "teacher macro {t} not in legal set");

    let mut discarding = game(&[p1, p2], Phase::DiscardPlant { player: p1, new_plant: plant(30, PlantKind::Coal, 3, 6) }, line_board());
    discarding.players[0].plants =
        vec![plant(5, PlantKind::Coal, 2, 1), plant(8, PlantKind::Oil, 2, 2), plant(20, PlantKind::Coal, 2, 4), plant(30, PlantKind::Coal, 3, 6)];
    let legal = legal_macros(&discarding, p1, &all);
    assert!(legal.iter().any(|&b| b), "no legal macro at phase {:?}", discarding.phase);
    let t = teacher_macro_id(&discarding, p1, &Action::DiscardPlant { plant_number: 5 }).expect("teacher macro");
    assert!(legal[t as usize], "teacher macro {t} not in legal set");
}
