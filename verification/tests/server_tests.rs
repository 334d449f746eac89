use powergrid::server::{admin_authorized, bearer_token, insert_conflict, AccountConflict};
use powergrid::encoding::is_subset_feasible;
use powergrid::lobby::BotDifficulty;
use powergrid::server::{
    attribute_seats, bot_colors, bot_seats, LocalConfig, bot_pace, handshake, report_size_ok, AuthError, FirstMessage, SeatRecord,
    MIN_PACE_NANOS, PROTOCOL_VERSION,
};
use powergrid::types::{PlantKind, PlayerColor, PlayerResources, PowerPlant};

#[test]
fn handshake_checks_the_protocol_version() {
    let ok = FirstMessage::Authenticate { token: "abc".to_string(), protocol_version: PROTOCOL_VERSION };
    assert_eq!(handshake(&ok), Ok("abc".to_string()));
    let old = FirstMessage::Authenticate { token: "abc".to_string(), protocol_version: 1 };
    assert_eq!(handshake(&old), Err(AuthError::VersionMismatch { server_version: 2, client_version: 1 }));
    assert_eq!(handshake(&FirstMessage::Other), Err(AuthError::AuthRequired));
}

#[test]
fn bot_pace_is_a_floor_not_an_addend() {
    assert_eq!(bot_pace(500_000_000, 100_000_000), 400_000_000);
    assert_eq!(bot_pace(500_000_000, 480_000_000), MIN_PACE_NANOS);
    assert_eq!(bot_pace(100, 900), MIN_PACE_NANOS);
}

#[test]
fn reports_need_one_to_six_seats() {
    assert!(!report_size_ok(0));
    assert!(report_size_ok(1));
    assert!(report_size_ok(6));
    assert!(!report_size_ok(7));
}

fn seat(uid: Option<u128>, name: &str, is_bot: bool) -> SeatRecord {
    SeatRecord { user_id: uid, player_name: name.to_string(), is_bot }
}

#[test]
fn seats_are_credited_server_side() {
    let mut seats = vec![seat(Some(9), "me", false), seat(Some(8), "Bot 1", true)];
    attribute_seats(&mut seats, Some(42));
    assert_eq!(seats[0].user_id, Some(42));
    assert_eq!(seats[0].player_name, "me");
    assert_eq!(seats[1].user_id, None);
    let mut anon = vec![seat(Some(9), "me", false), seat(None, "Bot 1", true)];
    attribute_seats(&mut anon, None);
    assert_eq!(anon[0].user_id, None);
    assert_eq!(anon[0].player_name, "anonymous");
    assert_eq!(anon[1].player_name, "Bot 1");
}

#[test]
fn bots_take_the_colours_left() {
    assert_eq!(bot_colors(PlayerColor::Blue, 2), vec![PlayerColor::Red, PlayerColor::Green]);
    assert_eq!(
        bot_colors(PlayerColor::Red, 9),
        vec![PlayerColor::Blue, PlayerColor::Green, PlayerColor::Yellow, PlayerColor::Purple, PlayerColor::White]
    );
    assert!(bot_colors(PlayerColor::Red, 0).is_empty());
}

#[test]
fn firing_a_subset_of_a_feasible_set_is_feasible() {
    let plants = vec![
        PowerPlant { number: 5, kind: PlantKind::GasOrOil, cost: 3, cities: 2 },
        PowerPlant { number: 10, kind: PlantKind::Oil, cost: 1, cities: 1 },
        PowerPlant { number: 13, kind: PlantKind::Wind, cost: 0, cities: 1 },
    ];
    let res = PlayerResources { coal: 0, oil: 3, gas: 1, uranium: 0 };
    assert!(is_subset_feasible(&plants, &res, 0b111));
    for sub in 0..8u8 {
        assert!(is_subset_feasible(&plants, &res, sub), "subset {sub:03b} of a feasible set");
    }
    let poor = PlayerResources { coal: 0, oil: 2, gas: 1, uranium: 0 };
    assert!(!is_subset_feasible(&plants, &poor, 0b011));
    assert!(is_subset_feasible(&plants, &poor, 0b001));
    assert!(is_subset_feasible(&plants, &poor, 0b010));
}

#[test]
fn local_bots_pair_colours_with_difficulties() {
    let cfg = LocalConfig {
        human_name: "me".to_string(),
        human_color: PlayerColor::Green,
        bots: vec![BotDifficulty::Easy, BotDifficulty::Hard, BotDifficulty::Expert],
    };
    assert_eq!(
        bot_seats(&cfg),
        vec![
            (PlayerColor::Red, BotDifficulty::Easy),
            (PlayerColor::Blue, BotDifficulty::Hard),
            (PlayerColor::Yellow, BotDifficulty::Expert)
        ]
    );
}

#[test]
fn bearer_tokens_follow_the_prefix() {
    assert_eq!(bearer_token("Bearer abc"), Some("abc"));
    assert_eq!(bearer_token("Bearer "), Some(""));
    assert_eq!(bearer_token("bearer abc"), None);
    assert_eq!(bearer_token("Token"), None);
    assert!(admin_authorized(Some("Bearer s3cret"), "s3cret"));
    assert!(!admin_authorized(Some("Bearer s3cre"), "s3cret"));
    assert!(!admin_authorized(None, "s3cret"));
    assert!(admin_authorized(None, ""));
}

#[test]
fn unique_violations_name_the_taken_field() {
    assert_eq!(insert_conflict(Some("23505"), Some("users_email_key")), Some(AccountConflict::EmailTaken));
    assert_eq!(insert_conflict(Some("23505"), Some("users_username_key")), Some(AccountConflict::UsernameTaken));
    assert_eq!(insert_conflict(Some("23505"), None), Some(AccountConflict::UsernameTaken));
    assert_eq!(insert_conflict(Some("40001"), Some("users_email_key")), None);
    assert_eq!(insert_conflict(None, None), None);
}
