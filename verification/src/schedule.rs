//! Paired evaluation games: the match schedule of one generation, the seat
//! each profile plays in, and the deterministic id of each seat.

use vstd::prelude::*;
use rand::rngs::SmallRng;
use rand::{Rng, SeedableRng};

verus! {

#[verifier::external_type_specification]
#[verifier::external_body]
pub struct ExSmallRng(rand::rngs::SmallRng);

/// `SmallRng::seed_from_u64`: a generator seeded from `seed`. Nothing is
/// stated of the numbers it will give: the crate documents the algorithm as
/// platform dependent and not reproducible across versions.
#[verifier::external_body]
fn seeded_rng(seed: u64) -> (r: SmallRng) {
    SmallRng::seed_from_u64(seed)
}

/// `Rng::gen_range(0..n)` on a `SmallRng`: some value in `0..n`. The crate
/// panics on an empty range, so `n` is positive.
#[verifier::external_body]
fn draw_below(rng: &mut SmallRng, n: usize) -> (r: usize)
    requires
        n > 0,
    ensures
        r < n,
{
    rng.gen_range(0..n)
}

/// One scheduled game: the base seed, the candidate's seat, and which
/// opponent profile fills each other seat (indices into the caller's pool).
#[derive(Clone, Debug)]
pub struct Match {
    pub seed: u64,
    pub candidate_seat: usize,
    pub opponent_pick: Vec<usize>,
}

/// What a generation's schedule is built from.
#[derive(Clone, Copy, Debug)]
pub struct ScheduleParams {
    pub games_per_eval: usize,
    pub seat_rotations: usize,
    /// Generations that share one block of seeds.
    pub seed_block_rotate: usize,
    pub seed_base: u64,
    pub num_players: usize,
}

impl ScheduleParams {
    pub open spec fn seeds_per_block(self) -> int {
        self.games_per_eval as int / self.seat_rotations as int
    }

    /// First seed of generation `gen`'s block.
    pub open spec fn block_offset(self, gen: int) -> int {
        self.seed_base + (gen / self.seed_block_rotate as int) * self.seeds_per_block()
    }

    /// The divisions are defined, there is a seat, and every seed of the
    /// block fits a `u64`.
    pub open spec fn valid_for(self, gen: int) -> bool {
        &&& self.seat_rotations > 0
        &&& self.seed_block_rotate > 0
        &&& self.num_players > 0
        &&& (gen / self.seed_block_rotate as int) * self.seeds_per_block() <= usize::MAX
        &&& self.block_offset(gen) + self.seeds_per_block() <= u64::MAX
    }
}

/// Game `i` of the schedule of generation `gen`: seed `offset + i / rotations`,
/// candidate seat `(i % rotations) % num_players`, and one pick below
/// `n_opponents` for each other seat.
pub open spec fn scheduled(p: ScheduleParams, gen: int, n_opponents: int, i: int, m: Match) -> bool {
    let rot = p.seat_rotations as int;
    &&& m.seed == p.block_offset(gen) + i / rot
    &&& m.candidate_seat == (i % rot) % (p.num_players as int)
    &&& m.opponent_pick@.len() == p.num_players - 1
    &&& forall|k: int| 0 <= k < m.opponent_pick@.len() ==> #[trigger] m.opponent_pick@[k] < n_opponents
}

fn draw_picks(seed: u64, count: usize, n_opponents: usize) -> (r: Vec<usize>)
    requires
        count > 0 ==> n_opponents > 0,
    ensures
        r@.len() == count,
        forall|k: int| 0 <= k < count ==> #[trigger] r@[k] < n_opponents,
{
    let mut rng = seeded_rng(seed);
    let mut out: Vec<usize> = Vec::new();
    let mut k: usize = 0;
    while k < count
        invariant
            k <= count,
            count > 0 ==> n_opponents > 0,
            out@.len() == k,
            forall|j: int| 0 <= j < k ==> #[trigger] out@[j] < n_opponents,
        decreases count - k,
    {
        let v = draw_below(&mut rng, n_opponents);
        out.push(v);
        k = k + 1;
    }
    out
}

/// The schedule of generation `gen`, fixed for every candidate of that
/// generation: each seed of the generation's block, once per seat rotation.
pub fn build_schedule(p: ScheduleParams, gen: usize, n_opponents: usize) -> (r: Vec<Match>)
    requires
        p.valid_for(gen as int),
        p.num_players > 1 ==> n_opponents > 0,
    ensures
        r@.len() == p.seeds_per_block() * p.seat_rotations,
        forall|i: int| 0 <= i < r@.len() ==> scheduled(p, gen as int, n_opponents as int, i, #[trigger] r@[i]),
{
    let seeds_per_block = p.games_per_eval / p.seat_rotations;
    let rotation = gen / p.seed_block_rotate;
    proof {
        assert(rotation as int * seeds_per_block as int <= usize::MAX);
    }
    let offset = p.seed_base + (rotation * seeds_per_block) as u64;
    let mut schedule: Vec<Match> = Vec::new();
    let mut s: usize = 0;
    while s < seeds_per_block
        invariant
            p.valid_for(gen as int),
            p.num_players > 1 ==> n_opponents > 0,
            seeds_per_block == p.seeds_per_block(),
            offset == p.block_offset(gen as int),
            s <= seeds_per_block,
            schedule@.len() == s * p.seat_rotations,
            forall|i: int| 0 <= i < schedule@.len() ==> scheduled(p, gen as int, n_opponents as int, i, #[trigger] schedule@[i]),
        decreases seeds_per_block - s,
    {
        let seed = offset + s as u64;
        let mut r: usize = 0;
        while r < p.seat_rotations
            invariant
                p.valid_for(gen as int),
                p.num_players > 1 ==> n_opponents > 0,
                seed == p.block_offset(gen as int) + s,
                s < seeds_per_block,
                r <= p.seat_rotations,
                schedule@.len() == s * p.seat_rotations + r,
                forall|i: int| 0 <= i < schedule@.len() ==> scheduled(p, gen as int, n_opponents as int, i, #[trigger] schedule@[i]),
            decreases p.seat_rotations - r,
        {
            let candidate_seat = r % p.num_players;
            let opponent_pick = draw_picks(seed ^ ((r as u64) << 32u64), p.num_players - 1, n_opponents);
            let ghost i = schedule@.len() as int;
            proof {
                let rot = p.seat_rotations as int;
                assert(i == s * rot + r);
                assert(i / rot == s) by (nonlinear_arith)
                    requires
                        i == s * rot + r,
                        0 <= r < rot,
                        s >= 0,
                ;
                assert(i % rot == r) by (nonlinear_arith)
                    requires
                        i == s * rot + r,
                        0 <= r < rot,
                        s >= 0,
                ;
            }
            schedule.push(Match { seed, candidate_seat, opponent_pick });
            r = r + 1;
        }
        proof {
            assert((s + 1) * p.seat_rotations == s * p.seat_rotations + p.seat_rotations) by (nonlinear_arith);
        }
        s = s + 1;
    }
    schedule
}

/// The pool index of the opponent in `seat`, or `None` for the candidate's
/// seat: the other seats take the picks in turn, wrapping around the list,
/// and each pick wraps around the pool.
pub open spec fn seat_profile(m: Match, n_opponents: int, seat: int) -> Option<usize> {
    if seat == m.candidate_seat {
        None
    } else {
        let cursor = if (m.candidate_seat as int) < seat { seat - 1 } else { seat };
        Some((m.opponent_pick@[cursor % (m.opponent_pick@.len() as int)] as int % n_opponents) as usize)
    }
}

/// Who sits where in game `m`: `None` for the candidate, else the index of
/// the opponent profile.
pub fn seat_profiles(m: &Match, num_players: usize, n_opponents: usize) -> (r: Vec<Option<usize>>)
    requires
        (num_players > 1 || (num_players == 1 && m.candidate_seat != 0)) ==> m.opponent_pick@.len() > 0 && n_opponents > 0,
    ensures
        r@.len() == num_players,
        forall|seat: int| 0 <= seat < num_players ==> #[trigger] r@[seat] == seat_profile(*m, n_opponents as int, seat),
{
    let mut out: Vec<Option<usize>> = Vec::new();
    let mut cursor: usize = 0;
    let mut seat: usize = 0;
    while seat < num_players
        invariant
            (num_players > 1 || (num_players == 1 && m.candidate_seat != 0)) ==> m.opponent_pick@.len() > 0 && n_opponents > 0,
            seat <= num_players,
            cursor == if (m.candidate_seat as int) < seat { seat - 1 } else { seat as int },
            out@.len() == seat,
            forall|t: int| 0 <= t < seat ==> #[trigger] out@[t] == seat_profile(*m, n_opponents as int, t),
        decreases num_players - seat,
    {
        if seat == m.candidate_seat {
            out.push(None);
        } else {
            let pick = m.opponent_pick[cursor % m.opponent_pick.len()];
            out.push(Some(pick % n_opponents));
            cursor = cursor + 1;
        }
        seat = seat + 1;
    }
    out
}

/// The deterministic player id of `seat` in the game seeded `seed`: the seed
/// in the high bits, `seat + 1` in the low byte.
pub fn player_id(seed: u64, seat: usize) -> (r: u128)
    ensures
        r == ((seed as u128) << 8u128) | ((seat + 1) as u128),
        seat < 255 ==> r == seed as int * 256 + seat as int + 1,
{
    let hi = (seed as u128) << 8u128;
    let lo = (seat as u128) + 1;
    let r = hi | lo;
    proof {
        if seat < 255 {
            let s = seed as u128;
            assert((s << 8u128) | lo == s * 256 + lo) by (bit_vector)
                requires
                    s <= 0xffff_ffff_ffff_ffffu128,
                    lo < 256,
            ;
        }
    }
    r
}

/// Every seat but the candidate's is filled from the pool: its index is a
/// valid pool index.
pub proof fn lemma_seat_profiles_in_pool(m: Match, n_opponents: int, seat: int)
    requires
        n_opponents > 0,
        m.opponent_pick@.len() > 0,
        seat != m.candidate_seat,
    ensures
        seat_profile(m, n_opponents, seat) matches Some(k) && (k as int) < n_opponents,
{
    let cursor = if (m.candidate_seat as int) < seat { seat - 1 } else { seat };
    let pick = m.opponent_pick@[cursor % (m.opponent_pick@.len() as int)] as int;
    assert(0 <= pick % n_opponents < n_opponents);
}

} // verus!
