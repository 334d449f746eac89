use powergrid::encoding::{N_ACTIONS, OBS_SIZE};
use powergrid::policy::{check_layout, NetKind, NetLayout, PolicyLoadError, HEADER_LEN};
use powergrid::schedule::{build_schedule, player_id, seat_profiles, Match, ScheduleParams};

fn make_bytes(magic: &[u8; 8], obs: u32, hidden: u32, actions: u32, n_params: usize) -> Vec<u8> {
    let mut bytes = Vec::from(*magic);
    bytes.extend(obs.to_le_bytes());
    bytes.extend(hidden.to_le_bytes());
    bytes.extend(actions.to_le_bytes());
    for _ in 0..n_params {
        bytes.extend(0.0f32.to_le_bytes());
    }
    bytes
}

#[test]
fn from_bytes_rejects_bad_magic() {
    assert_eq!(check_layout(b"NOTRIGHT", NetKind::Policy), Err(PolicyLoadError::BadMagic));
    assert_eq!(check_layout(&[], NetKind::Policy), Err(PolicyLoadError::BadMagic));
}

#[test]
fn from_bytes_rejects_wrong_dims() {
    let bytes = make_bytes(b"PGRLPOL1", 10, 4, 5, 0);
    assert!(matches!(check_layout(&bytes, NetKind::Policy), Err(PolicyLoadError::DimMismatch { .. })));
}

#[test]
fn from_bytes_rejects_truncated_payload() {
    let bytes = make_bytes(b"PGRLPOL1", OBS_SIZE as u32, 4, N_ACTIONS as u32, 16);
    assert!(matches!(check_layout(&bytes, NetKind::Policy), Err(PolicyLoadError::BadLength { .. })));
}

#[test]
fn layout_accepts_exact_length() {
    let h = 4usize;
    let n = h * OBS_SIZE + h + h * h + h + N_ACTIONS * h + N_ACTIONS;
    let bytes = make_bytes(b"PGRLPOL1", OBS_SIZE as u32, h as u32, N_ACTIONS as u32, n);
    assert_eq!(bytes.len(), HEADER_LEN + 4 * n);
    assert_eq!(
        check_layout(&bytes, NetKind::Policy),
        Ok(NetLayout { obs_size: OBS_SIZE, hidden: h, out_dim: N_ACTIONS })
    );
    let short = &bytes[..bytes.len() - 4];
    assert_eq!(
        check_layout(short, NetKind::Policy),
        Err(PolicyLoadError::BadLength { expected: HEADER_LEN + 4 * n, actual: HEADER_LEN + 4 * n - 4 })
    );
    assert_eq!(check_layout(&bytes, NetKind::Value), Err(PolicyLoadError::BadMagic));
}

#[test]
fn value_layout_has_one_output() {
    let h = 2usize;
    let n = h * OBS_SIZE + h + h * h + h + h + 1;
    let bytes = make_bytes(b"PGRLVAL1", OBS_SIZE as u32, h as u32, 1, n);
    assert_eq!(check_layout(&bytes, NetKind::Value), Ok(NetLayout { obs_size: OBS_SIZE, hidden: h, out_dim: 1 }));
    let wrong = make_bytes(b"PGRLVAL1", OBS_SIZE as u32, h as u32, 2, n);
    assert_eq!(
        check_layout(&wrong, NetKind::Value),
        Err(PolicyLoadError::DimMismatch { obs_size: OBS_SIZE, n_actions: 2 })
    );
}

#[test]
fn observation_size_matches_the_layout() {
    assert_eq!(OBS_SIZE, 582);
}

#[test]
fn schedule_covers_each_seed_once_per_rotation() {
    let p = ScheduleParams { games_per_eval: 12, seat_rotations: 4, seed_block_rotate: 5, seed_base: 1000, num_players: 4 };
    let s = build_schedule(p, 11, 3);
    assert_eq!(s.len(), 12);
    // Generation 11 is in block 2: offset 1000 + 2 * 3.
    for (i, m) in s.iter().enumerate() {
        assert_eq!(m.seed, 1006 + (i / 4) as u64);
        assert_eq!(m.candidate_seat, i % 4);
        assert_eq!(m.opponent_pick.len(), 3);
        assert!(m.opponent_pick.iter().all(|&k| k < 3));
    }
}

#[test]
fn seats_take_picks_in_turn() {
    let m = Match { seed: 1, candidate_seat: 1, opponent_pick: vec![4, 0] };
    assert_eq!(seat_profiles(&m, 4, 3), vec![Some(1), None, Some(0), Some(1)]);
}

#[test]
fn player_ids_mix_seed_and_seat() {
    assert_eq!(player_id(42, 0), (42u128 << 8) | 1);
    assert_eq!(player_id(42, 3), 42 * 256 + 4);
    assert_ne!(player_id(1, 0), player_id(0, 0));
}
