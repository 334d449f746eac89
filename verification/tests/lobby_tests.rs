use powergrid::lobby::room_action_check;
use powergrid::labels::{ct_eq, kind_label, ordinal, parse_color, plant_record};
use powergrid::lobby::{
    check_login, check_register, lobby_check, lobby_room_key, remove_bot_error, room_key, sort_summaries,
    validate_room_name, BotDifficulty, LobbyAction, LobbyError, LobbyStep, LoginReq, RegisterReq, Room,
    RoomSummary, MAX_PLAYERS,
};
use powergrid::map::GameMap;
use powergrid::market::{PlantMarket, ResourceMarket};
use powergrid::state::{GameState, Phase};
use powergrid::types::{PlantKind, Player, PlayerColor, PlayerId, PlayerResources, PowerPlant};

fn game(ids: &[PlayerId], phase: Phase) -> GameState {
    GameState {
        phase,
        players: ids
            .iter()
            .map(|&id| Player { id, money: 50, plants: vec![], resources: PlayerResources { coal: 0, oil: 0, gas: 0, uranium: 0 } })
            .collect(),
        player_order: ids.to_vec(),
        market: PlantMarket { actual: vec![], future: vec![], in_step3: false, discount_token: None },
        resources: ResourceMarket::initial(),
        map: GameMap { name: "empty".to_string(), regions: vec![], cities: vec![], edges: vec![], waypoints: vec![], links: vec![] },
        step: 1,
        round: 1,
        end_game_cities: 17,
        active_regions: vec![],
    }
}

fn room(host: PlayerId, humans: Vec<PlayerId>, phase: Phase) -> Room {
    let mut r = Room::new("Friday".to_string(), game(&humans, phase), host);
    r.humans = humans;
    r
}

#[test]
fn room_names_allow_letters_digits_dash_underscore() {
    assert!(validate_room_name("test-room_2").is_ok());
    assert!(matches!(validate_room_name(""), Err(LobbyError::InvalidRoomName)));
    assert!(matches!(validate_room_name("no spaces"), Err(LobbyError::InvalidRoomName)));
    assert!(matches!(validate_room_name(&"x".repeat(33)), Err(LobbyError::InvalidRoomName)));
    assert!(validate_room_name(&"x".repeat(32)).is_ok());
}

#[test]
fn room_keys_ignore_case() {
    assert_eq!(room_key("Friday-Night"), "friday-night");
    assert_eq!(room_key("friday-night"), room_key("FRIDAY-NIGHT"));
}

#[test]
fn create_refuses_invalid_then_taken_names() {
    let host: PlayerId = 1;
    let existing = room(host, vec![host], Phase::Lobby);
    let bad = LobbyAction::CreateRoom { name: "bad name".to_string() };
    assert!(matches!(lobby_check(&bad, host, &None, Some(&existing)), Err(LobbyError::InvalidRoomName)));
    let taken = LobbyAction::CreateRoom { name: "Friday".to_string() };
    assert_eq!(lobby_room_key(&taken, &None), Some("friday".to_string()));
    match lobby_check(&taken, host, &None, Some(&existing)) {
        Err(LobbyError::RoomAlreadyExists { name }) => assert_eq!(name, "Friday"),
        other => panic!("unexpected {other:?}"),
    }
    match lobby_check(&taken, host, &None, None) {
        Ok(LobbyStep::CreateRoom { key }) => assert_eq!(key, "friday"),
        other => panic!("unexpected {other:?}"),
    }
}

#[test]
fn join_checks_room_then_membership() {
    let host: PlayerId = 1;
    let guest: PlayerId = 2;
    let r = room(host, vec![host], Phase::Lobby);
    let join = LobbyAction::JoinRoom { name: "FRIDAY".to_string() };
    match lobby_check(&join, guest, &None, None) {
        Err(LobbyError::RoomNotFound { name }) => assert_eq!(name, "FRIDAY"),
        other => panic!("unexpected {other:?}"),
    }
    assert!(matches!(lobby_check(&join, guest, &Some("other".to_string()), Some(&r)), Err(LobbyError::AlreadyInRoom)));
    match lobby_check(&join, guest, &None, Some(&r)) {
        Ok(LobbyStep::JoinRoom { key, reconnect }) => {
            assert_eq!(key, "friday");
            assert!(!reconnect);
        }
        other => panic!("unexpected {other:?}"),
    }
    assert!(matches!(lobby_check(&join, host, &None, Some(&r)), Ok(LobbyStep::JoinRoom { reconnect: true, .. })));
}

#[test]
fn add_bot_is_for_the_host_before_the_game() {
    let host: PlayerId = 1;
    let guest: PlayerId = 2;
    let add = |name: &str| LobbyAction::AddBot { bot_name: name.to_string(), color: PlayerColor::Red, difficulty: BotDifficulty::Hard };
    let lobby = room(host, vec![host, guest], Phase::Lobby);
    let started = room(host, vec![host, guest], Phase::BuyResources { remaining: vec![] });
    let cur = Some("friday".to_string());
    assert!(matches!(lobby_check(&add("BotA"), host, &None, None), Err(LobbyError::NotInRoom)));
    match lobby_check(&add("BotA"), host, &cur, None) {
        Err(LobbyError::RoomNotFound { name }) => assert_eq!(name, "friday"),
        other => panic!("unexpected {other:?}"),
    }
    assert!(matches!(lobby_check(&add("BotA"), guest, &cur, Some(&lobby)), Err(LobbyError::NotHost)));
    assert!(matches!(lobby_check(&add("BotA"), host, &cur, Some(&started)), Err(LobbyError::GameAlreadyStarted)));
    assert!(matches!(lobby_check(&add("   "), host, &cur, Some(&lobby)), Err(LobbyError::BotNameEmpty)));
    assert!(matches!(lobby_check(&add(&"b".repeat(25)), host, &cur, Some(&lobby)), Err(LobbyError::BotNameTooLong)));
    match lobby_check(&add("  BotA "), host, &cur, Some(&lobby)) {
        Ok(LobbyStep::AddBot { bot_name, color, difficulty }) => {
            assert_eq!(bot_name, "BotA");
            assert_eq!(color, PlayerColor::Red);
            assert_eq!(difficulty, BotDifficulty::Hard);
        }
        other => panic!("unexpected {other:?}"),
    }
}

#[test]
fn remove_bot_is_for_the_host() {
    let host: PlayerId = 1;
    let guest: PlayerId = 2;
    let r = room(host, vec![host, guest], Phase::Lobby);
    let cur = Some("friday".to_string());
    let remove = LobbyAction::RemoveBot { bot_id: 77 };
    assert!(matches!(lobby_check(&remove, guest, &cur, Some(&r)), Err(LobbyError::NotHost)));
    assert!(matches!(lobby_check(&remove, host, &cur, Some(&r)), Ok(LobbyStep::RemoveBot { bot_id: 77 })));
    assert!(matches!(lobby_check(&LobbyAction::ListRooms, guest, &None, None), Ok(LobbyStep::ListRooms)));
    assert!(matches!(lobby_check(&LobbyAction::LeaveRoom, guest, &None, None), Ok(LobbyStep::LeaveRoom)));
}

#[test]
fn removal_reasons_map_to_lobby_errors() {
    assert!(matches!(remove_bot_error("cannot remove: game has started"), LobbyError::GameAlreadyStarted));
    assert!(matches!(remove_bot_error("no such bot"), LobbyError::BotNotFound));
}

#[test]
fn leaving_host_hands_over_and_frees_the_seat() {
    let host: PlayerId = 1;
    let guest: PlayerId = 2;
    let mut r = room(host, vec![host, guest], Phase::Lobby);
    r.leave(host);
    assert_eq!(r.humans, vec![guest]);
    assert_eq!(r.creator_user_id, guest);
    assert_eq!(r.game.players.len(), 1);
    assert_eq!(r.game.player_order, vec![guest]);
    assert!(!r.should_drop());
    r.leave(guest);
    assert!(r.humans.is_empty());
    assert_eq!(r.creator_user_id, guest);
    assert!(r.should_drop(), "an empty room that never started is dropped");
}

#[test]
fn leaving_a_running_game_keeps_the_seat() {
    let host: PlayerId = 1;
    let guest: PlayerId = 2;
    let mut r = room(host, vec![host, guest], Phase::BuildCities { remaining: vec![] });
    r.leave(guest);
    assert_eq!(r.humans, vec![host]);
    assert_eq!(r.creator_user_id, host);
    assert_eq!(r.game.players.len(), 2);
    r.leave(host);
    assert!(!r.should_drop(), "a running game is kept");
}

#[test]
fn results_are_recorded_once() {
    let host: PlayerId = 1;
    let mut running = room(host, vec![host], Phase::Lobby);
    assert!(!running.claim_result_recording());
    let mut done = room(host, vec![host], Phase::GameOver);
    assert!(done.claim_result_recording());
    assert!(!done.claim_result_recording());
}

#[test]
fn summary_reports_seats_and_start() {
    let r = room(1, vec![1, 2], Phase::Lobby);
    let s = r.summary();
    assert_eq!(s.name, "Friday");
    assert_eq!(s.player_count, 2);
    assert_eq!(s.max_players, MAX_PLAYERS);
    assert!(!s.has_started);
    let started = room(1, vec![1], Phase::GameOver).summary();
    assert!(started.has_started);
}

#[test]
fn room_list_is_sorted_by_name() {
    let mk = |n: &str| RoomSummary { name: n.to_string(), player_count: 1, max_players: 6, has_started: false };
    let sorted = sort_summaries(vec![mk("zeta"), mk("alpha"), mk("Mid"), mk("beta")]);
    let names: Vec<&str> = sorted.iter().map(|s| s.name.as_str()).collect();
    assert_eq!(names, vec!["Mid", "alpha", "beta", "zeta"]);
}

#[test]
fn register_checks_in_order() {
    let req = |e: &str, u: &str, p: &str| RegisterReq { email: e.to_string(), username: u.to_string(), password: p.to_string() };
    assert!(check_register(&req("a@b.c", "alice", "password1")).is_ok());
    assert_eq!(check_register(&req("ab.c", "alice", "password1")).err().unwrap().error, "email must contain @ and be at most 254 characters");
    assert_eq!(check_register(&req("a@b.c", "al", "password1")).err().unwrap().error, "username must be 3\u{2013}24 characters");
    assert_eq!(
        check_register(&req("a@b.c", "al ice", "password1")).err().unwrap().error,
        "username may only contain letters, digits, hyphens, and underscores"
    );
    assert_eq!(check_register(&req("a@b.c", "alice", "short")).err().unwrap().error, "password must be 8\u{2013}128 characters");
}

#[test]
fn login_refuses_oversized_credentials() {
    let ok = LoginReq { identifier: "alice".to_string(), password: "pw".to_string() };
    assert!(check_login(&ok).is_ok());
    let long = LoginReq { identifier: "a".repeat(255), password: "pw".to_string() };
    assert_eq!(check_login(&long).err().unwrap().error, "invalid credentials");
    let long_pw = LoginReq { identifier: "alice".to_string(), password: "p".repeat(129) };
    assert_eq!(check_login(&long_pw).err().unwrap().error, "invalid credentials");
}

#[test]
fn labels_and_places() {
    assert_eq!(kind_label(PlantKind::GasOrOil), "GAS/OIL");
    assert_eq!(kind_label(PlantKind::Uranium), "URANIUM");
    assert_eq!(ordinal(1), "1ST");
    assert_eq!(ordinal(3), "3RD");
    assert_eq!(ordinal(9), "6TH");
}

#[test]
fn colors_parse_in_any_case() {
    assert_eq!(parse_color("Purple"), Ok(PlayerColor::Purple));
    assert_eq!(parse_color("WHITE"), Ok(PlayerColor::White));
    assert_eq!(
        parse_color("Black"),
        Err("unknown color 'black'; expected: red, blue, green, yellow, purple, white".to_string())
    );
}

#[test]
fn constant_time_compare_is_equality() {
    assert!(ct_eq(b"token", b"token"));
    assert!(!ct_eq(b"token", b"tokem"));
    assert!(!ct_eq(b"token", b"token2"));
    assert!(ct_eq(b"", b""));
}

#[test]
fn plant_records_use_lowercase_kinds() {
    let r = plant_record(&PowerPlant { number: 12, kind: PlantKind::GasOrOil, cost: 2, cities: 3 });
    assert_eq!(r.number, 12);
    assert_eq!(r.kind, "gasoroil");
    assert_eq!(r.capacity, 3);
    assert_eq!(r.resource_cost, 2);
}

#[test]
fn room_moves_need_membership() {
    let r = room(1, vec![1], Phase::Lobby);
    assert!(room_action_check(1, "Friday", Some(&r)).is_ok());
    assert!(matches!(room_action_check(2, "Friday", Some(&r)), Err(LobbyError::NotMember)));
    match room_action_check(1, "gone", None) {
        Err(LobbyError::RoomNotFound { name }) => assert_eq!(name, "gone"),
        other => panic!("unexpected {other:?}"),
    }
}
