use powergrid::action::Action;
use powergrid::client::{client_step, ClientUi, UiEvent};
use powergrid::types::{PlayerColor, PlayerResources, Resource};

fn fresh() -> ClientUi {
    ClientUi {
        my_id: None,
        bid_amount: String::new(),
        error_message: None,
        selected_build_cities: vec![],
        build_order: vec![],
        cart: PlayerResources { coal: 0, oil: 0, gas: 0, uranium: 0 },
    }
}

#[test]
fn welcome_names_the_player_and_joins() {
    let mut ui = fresh();
    let r = client_step(&mut ui, None, UiEvent::Welcome { your_id: 7, join: Some(("ann".to_string(), PlayerColor::Red)) });
    assert_eq!(ui.my_id, Some(7));
    assert!(matches!(r, Some(Action::JoinGame { ref name, color: PlayerColor::Red }) if name == "ann"));
    let r = client_step(&mut ui, None, UiEvent::Welcome { your_id: 8, join: None });
    assert!(r.is_none());
    assert_eq!(ui.my_id, Some(8));
}

#[test]
fn bids_are_read_from_the_trimmed_field() {
    let mut ui = fresh();
    client_step(&mut ui, None, UiEvent::BidAmountChanged { text: "  42 ".to_string() });
    let r = client_step(&mut ui, None, UiEvent::PlaceBid);
    assert!(matches!(r, Some(Action::PlaceBid { amount: 42 })));
    assert_eq!(ui.bid_amount, "");
    client_step(&mut ui, None, UiEvent::BidAmountChanged { text: "+7".to_string() });
    assert!(matches!(client_step(&mut ui, None, UiEvent::PlaceBid), Some(Action::PlaceBid { amount: 7 })));
    for bad in ["abc", "", "4294967296", "-3", "1 2"] {
        client_step(&mut ui, None, UiEvent::BidAmountChanged { text: bad.to_string() });
        assert!(client_step(&mut ui, None, UiEvent::PlaceBid).is_none());
        assert_eq!(ui.bid_amount, bad);
    }
    client_step(&mut ui, None, UiEvent::BidAmountChanged { text: "\u{3000}5\t\n".to_string() });
    assert!(matches!(client_step(&mut ui, None, UiEvent::PlaceBid), Some(Action::PlaceBid { amount: 5 })));
    client_step(&mut ui, None, UiEvent::BidAmountChanged { text: "4294967295".to_string() });
    assert!(matches!(client_step(&mut ui, None, UiEvent::PlaceBid), Some(Action::PlaceBid { amount: 4294967295 })));
}

#[test]
fn cart_needs_a_known_game_and_turns_into_purchases() {
    let mut ui = fresh();
    // Without a game the cart stays empty.
    assert!(client_step(&mut ui, None, UiEvent::AddResourceToCart { resource: Resource::Coal }).is_none());
    assert_eq!(ui.cart, PlayerResources { coal: 0, oil: 0, gas: 0, uranium: 0 });
    assert!(matches!(client_step(&mut ui, None, UiEvent::DoneBuying), Some(Action::DoneBuying)));
    ui.cart = PlayerResources { coal: 2, oil: 0, gas: 1, uranium: 0 };
    match client_step(&mut ui, None, UiEvent::DoneBuying) {
        Some(Action::BuyResourceBatch { purchases }) => assert_eq!(purchases, vec![(Resource::Coal, 2), (Resource::Gas, 1)]),
        _ => panic!("expected a batch purchase"),
    }
    client_step(&mut ui, None, UiEvent::RemoveResourceFromCart { resource: Resource::Gas });
    client_step(&mut ui, None, UiEvent::RemoveResourceFromCart { resource: Resource::Gas });
    assert_eq!(ui.cart, PlayerResources { coal: 2, oil: 0, gas: 0, uranium: 0 });
    client_step(&mut ui, None, UiEvent::ClearResourceCart);
    assert_eq!(ui.cart, PlayerResources { coal: 0, oil: 0, gas: 0, uranium: 0 });
}

#[test]
fn build_picks_toggle_and_clear_on_a_new_state() {
    let mut ui = fresh();
    client_step(&mut ui, None, UiEvent::ToggleBuildCity { city_id: "a".to_string() });
    client_step(&mut ui, None, UiEvent::ToggleBuildCity { city_id: "b".to_string() });
    assert_eq!(ui.selected_build_cities, vec!["a".to_string(), "b".to_string()]);
    client_step(&mut ui, None, UiEvent::ToggleBuildCity { city_id: "a".to_string() });
    assert_eq!(ui.selected_build_cities, vec!["b".to_string()]);
    // No game known: no preview order yet.
    assert!(matches!(client_step(&mut ui, None, UiEvent::DoneBuilding), Some(Action::BuildCities { ref city_ids }) if city_ids.is_empty()));
    ui.error_message = Some("no".to_string());
    ui.cart = PlayerResources { coal: 1, oil: 0, gas: 0, uranium: 0 };
    assert!(client_step(&mut ui, None, UiEvent::StateUpdate).is_none());
    assert!(ui.selected_build_cities.is_empty());
    assert_eq!(ui.cart, PlayerResources { coal: 0, oil: 0, gas: 0, uranium: 0 });
    assert!(ui.error_message.is_none());
    assert!(matches!(client_step(&mut ui, None, UiEvent::DoneBuilding), Some(Action::DoneBuilding)));
}

#[test]
fn plain_clicks_send_their_moves() {
    let mut ui = fresh();
    assert!(matches!(client_step(&mut ui, None, UiEvent::StartGame), Some(Action::StartGame)));
    assert!(matches!(client_step(&mut ui, None, UiEvent::SelectPlant { plant_number: 13 }), Some(Action::SelectPlant { plant_number: 13 })));
    assert!(matches!(client_step(&mut ui, None, UiEvent::PassAuction), Some(Action::PassAuction)));
    assert!(client_step(&mut ui, None, UiEvent::PowerCities).is_none());
    client_step(&mut ui, None, UiEvent::ActionError { message: "late".to_string() });
    assert_eq!(ui.error_message.as_deref(), Some("late"));
}
