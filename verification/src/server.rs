//! Decisions of the servers and the local game host: the connection
//! handshake, pacing of bot moves, crediting the seats of a submitted game,
//! and the colours bots take beside a human.

use vstd::prelude::*;

use crate::lobby::{BotDifficulty, MAX_PLAYERS};
use crate::text::{has_substring, occurs_at, str_eq};
use crate::types::{PlayerColor, PlayerId};

verus! {

/// Current wire protocol version; a client must speak exactly this one.
pub const PROTOCOL_VERSION: u32 = 2;

/// Why a connection is refused before it is authenticated.
#[derive(Debug, PartialEq, Eq, Structural)]
pub enum AuthError {
    Timeout,
    InvalidToken,
    AuthRequired,
    VersionMismatch { server_version: u32, client_version: u32 },
}

/// The first message a fresh connection sent, as far as the handshake
/// reads it.
#[derive(Debug)]
pub enum FirstMessage {
    Authenticate { token: String, protocol_version: u32 },
    /// Any other well-formed message.
    Other,
}

/// The handshake: an `Authenticate` in this protocol version goes on to
/// have its token checked (returned here); another version is refused with
/// both versions named; anything else first is refused as unauthenticated.
pub fn handshake(first: &FirstMessage) -> (r: Result<String, AuthError>)
    ensures
        match *first {
            FirstMessage::Authenticate { token, protocol_version } => if protocol_version == PROTOCOL_VERSION {
                r matches Ok(t) && t@ == token@
            } else {
                r == Err::<String, AuthError>(AuthError::VersionMismatch {
                    server_version: PROTOCOL_VERSION,
                    client_version: protocol_version,
                })
            },
            FirstMessage::Other => r == Err::<String, AuthError>(AuthError::AuthRequired),
        },
{
    match first {
        FirstMessage::Authenticate { token, protocol_version } => {
            if *protocol_version != PROTOCOL_VERSION {
                return Err(AuthError::VersionMismatch { server_version: PROTOCOL_VERSION, client_version: *protocol_version });
            }
            Ok(token.as_str().to_owned())
        },
        FirstMessage::Other => Err(AuthError::AuthRequired),
    }
}

/// Least pause after a bot move, in nanoseconds.
pub const MIN_PACE_NANOS: u128 = 50_000_000;

/// The pause after a bot move: what is left of `delay` once the bot's
/// thinking time `elapsed` is taken off, and never less than the minimum.
pub fn bot_pace(delay_nanos: u128, elapsed_nanos: u128) -> (r: u128)
    ensures
        r == if delay_nanos > elapsed_nanos && delay_nanos - elapsed_nanos > MIN_PACE_NANOS {
            delay_nanos - elapsed_nanos
        } else {
            MIN_PACE_NANOS as int
        },
{
    let left = if delay_nanos > elapsed_nanos { delay_nanos - elapsed_nanos } else { 0 };
    if left > MIN_PACE_NANOS { left } else { MIN_PACE_NANOS }
}

/// One seat of a finished game, as a submitted report gives it.
#[derive(Debug)]
pub struct SeatRecord {
    pub user_id: Option<PlayerId>,
    pub player_name: String,
    pub is_bot: bool,
}

/// A submitted report is refused when it has no seat or more seats than a
/// table holds.
pub fn report_size_ok(seats: usize) -> (r: bool)
    ensures
        r == (seats > 0 && seats <= MAX_PLAYERS),
{
    seats > 0 && seats <= MAX_PLAYERS as usize
}

/// How a seat is credited: bots carry no user; a human seat goes to the
/// account behind the submitter's token, or, without one, to nobody under
/// the name "anonymous". What the client said is never kept.
pub open spec fn credited(before: SeatRecord, after: SeatRecord, resolved: Option<PlayerId>) -> bool {
    &&& after.is_bot == before.is_bot
    &&& if before.is_bot {
        after.user_id is None && after.player_name@ == before.player_name@
    } else {
        match resolved {
            Some(uid) => after.user_id == Some(uid) && after.player_name@ == before.player_name@,
            None => after.user_id is None && after.player_name@ == "anonymous"@,
        }
    }
}

/// Credits every seat of a submitted game.
pub fn attribute_seats(seats: &mut Vec<SeatRecord>, resolved: Option<PlayerId>)
    ensures
        final(seats)@.len() == old(seats)@.len(),
        forall|i: int| 0 <= i < old(seats)@.len() ==> credited(old(seats)@[i], #[trigger] final(seats)@[i], resolved),
{
    let ghost start = seats@;
    let n = seats.len();
    let mut i: usize = 0;
    while i < n
        invariant
            n == start.len(),
            seats@.len() == n,
            i <= n,
            forall|j: int| 0 <= j < i ==> credited(start[j], #[trigger] seats@[j], resolved),
            forall|j: int| i <= j < n ==> #[trigger] seats@[j] == start[j],
        decreases n - i,
    {
        let is_bot = seats[i].is_bot;
        let name = seats[i].player_name.as_str().to_owned();
        let seat = if is_bot {
            SeatRecord { user_id: None, player_name: name, is_bot }
        } else {
            match resolved {
                Some(uid) => SeatRecord { user_id: Some(uid), player_name: name, is_bot },
                None => SeatRecord { user_id: None, player_name: "anonymous".to_owned(), is_bot },
            }
        };
        let ghost before = seats@;
        seats.set(i, seat);
        proof {
            assert forall|j: int| i < j < n implies #[trigger] seats@[j] == start[j] by {
                assert(seats@[j] == before[j]);
            }
            assert forall|j: int| 0 <= j < i implies credited(start[j], #[trigger] seats@[j], resolved) by {
                assert(seats@[j] == before[j]);
            }
        }
        i = i + 1;
    }
}

pub open spec fn color_at(i: int) -> PlayerColor {
    if i == 0 {
        PlayerColor::Red
    } else if i == 1 {
        PlayerColor::Blue
    } else if i == 2 {
        PlayerColor::Green
    } else if i == 3 {
        PlayerColor::Yellow
    } else if i == 4 {
        PlayerColor::Purple
    } else {
        PlayerColor::White
    }
}

fn color_of(i: usize) -> (r: PlayerColor)
    requires
        i < 6,
    ensures
        r == color_at(i as int),
{
    if i == 0 {
        PlayerColor::Red
    } else if i == 1 {
        PlayerColor::Blue
    } else if i == 2 {
        PlayerColor::Green
    } else if i == 3 {
        PlayerColor::Yellow
    } else if i == 4 {
        PlayerColor::Purple
    } else {
        PlayerColor::White
    }
}

/// The table's colours in order, without `human`'s, among the first `k`.
pub open spec fn colors_left(human: PlayerColor, k: int) -> Seq<PlayerColor>
    decreases k,
{
    if k <= 0 {
        seq![]
    } else {
        let prev = colors_left(human, k - 1);
        if color_at(k - 1) == human { prev } else { prev.push(color_at(k - 1)) }
    }
}

/// The colours `bots` bots take beside a human playing `human`: the
/// table's colours in order (red, blue, green, yellow, purple, white)
/// without the human's, as many as there are bots (at most five).
pub fn bot_colors(human: PlayerColor, bots: usize) -> (r: Vec<PlayerColor>)
    ensures
        r@ == colors_left(human, 6).take(if bots < colors_left(human, 6).len() { bots as int } else { colors_left(human, 6).len() as int }),
{
    let mut all: Vec<PlayerColor> = Vec::new();
    let mut i: usize = 0;
    while i < 6
        invariant
            i <= 6,
            all@ == colors_left(human, i as int),
        decreases 6 - i,
    {
        let c = color_of(i);
        if c != human {
            all.push(c);
        }
        i = i + 1;
    }
    let mut out: Vec<PlayerColor> = Vec::new();
    let mut j: usize = 0;
    while j < all.len() && j < bots
        invariant
            all@ == colors_left(human, 6),
            j <= all@.len(),
            j <= bots,
            out@ == all@.take(j as int),
        decreases all@.len() - j,
    {
        out.push(all[j]);
        j = j + 1;
        assert(out@ =~= all@.take(j as int));
    }
    out
}

/// A game hosted on the player's own machine: the human's seat and one
/// difficulty per bot.
#[derive(Debug)]
pub struct LocalConfig {
    pub human_name: String,
    pub human_color: PlayerColor,
    /// One entry per bot; the count of bots is its length.
    pub bots: Vec<BotDifficulty>,
}

/// The bots' seats of a local game: the colours left beside the human's,
/// in table order, each with its difficulty, as many as both lists allow.
pub fn bot_seats(cfg: &LocalConfig) -> (r: Vec<(PlayerColor, BotDifficulty)>)
    ensures
        ({
            let colors = colors_left(cfg.human_color, 6).take(if cfg.bots@.len() < colors_left(cfg.human_color, 6).len() {
                cfg.bots@.len() as int
            } else {
                colors_left(cfg.human_color, 6).len() as int
            });
            &&& r@.len() == colors.len()
            &&& forall|i: int| 0 <= i < r@.len() ==> #[trigger] r@[i] == (colors[i], cfg.bots@[i])
        }),
{
    let colors = bot_colors(cfg.human_color, cfg.bots.len());
    let mut out: Vec<(PlayerColor, BotDifficulty)> = Vec::new();
    let mut i: usize = 0;
    while i < colors.len()
        invariant
            i <= colors@.len(),
            colors@.len() <= cfg.bots@.len(),
            out@.len() == i,
            forall|j: int| 0 <= j < i ==> #[trigger] out@[j] == (colors@[j], cfg.bots@[j]),
        decreases colors@.len() - i,
    {
        out.push((colors[i], cfg.bots[i]));
        i = i + 1;
    }
    out
}

// ---------------------------------------------------------------------------
// Bearer tokens and stored accounts
// ---------------------------------------------------------------------------

/// The token of an `Authorization` header value: what follows `Bearer `.
pub open spec fn bearer_of(header: Seq<char>) -> Option<Seq<char>> {
    if header.len() >= 7 && header.take(7) == "Bearer "@ { Some(header.skip(7)) } else { None }
}

/// The token an `Authorization` header value carries, if it is a bearer one.
pub fn bearer_token(header: &str) -> (r: Option<&str>)
    ensures
        match r {
            Some(t) => bearer_of(header@) == Some(t@),
            None => bearer_of(header@) is None,
        },
{
    let n = header.unicode_len();
    if n < 7 {
        return None;
    }
    let head = header.substring_char(0, 7);
    proof {
        assert(head@ == header@.take(7));
    }
    if !str_eq(head, "Bearer ") {
        return None;
    }
    let rest = header.substring_char(7, n);
    proof {
        assert(rest@ =~= header@.skip(7));
    }
    Some(rest)
}

/// The admin API admits a request whose bearer token is exactly the
/// configured token (a missing or other header counts as an empty token),
/// compared in time that does not depend on where they differ.
pub fn admin_authorized(header: Option<&str>, token: &str) -> (r: bool)
    ensures
        ({
            let provided: Seq<char> = match header {
                Some(h) => match bearer_of(h@) {
                    Some(t) => t,
                    None => seq![],
                },
                None => seq![],
            };
            r == (provided == token@)
        }),
{
    let provided: &str = match header {
        Some(h) => match bearer_token(h) {
            Some(t) => t,
            None => "",
        },
        None => "",
    };
    proof {
        reveal_strlit("");
        assert(("")@ =~= Seq::<char>::empty());
        match header {
            Some(h) => match bearer_of(h@) {
                Some(t) => assert(provided@ == t),
                None => assert(provided@ == Seq::<char>::empty()),
            },
            None => assert(provided@ == Seq::<char>::empty()),
        }
    }
    ct_eq_chars(provided, token)
}

/// Whether `a` and `b` hold the same characters, inspecting every pair
/// whatever the earlier ones were.
fn ct_eq_chars(a: &str, b: &str) -> (r: bool)
    ensures
        r == (a@ == b@),
{
    let n = a.unicode_len();
    if n != b.unicode_len() {
        return false;
    }
    let mut acc: u32 = 0;
    let mut i: usize = 0;
    while i < n
        invariant
            n == a@.len(),
            n == b@.len(),
            i <= n,
            (acc == 0) == (forall|j: int| 0 <= j < i ==> a@[j] == b@[j]),
        decreases n - i,
    {
        let x = a.get_char(i) as u32;
        let y = b.get_char(i) as u32;
        let next = acc | (x ^ y);
        proof {
            assert((next == 0) == (acc == 0 && x == y)) by (bit_vector)
                requires
                    next == acc | (x ^ y),
            ;
            assert((x == y) == (a@[i as int] == b@[i as int]));
        }
        acc = next;
        i = i + 1;
    }
    proof {
        if acc == 0 {
            assert(a@ =~= b@);
        }
    }
    acc == 0
}

/// Why a new account could not be stored.
#[derive(Debug, PartialEq, Eq, Structural)]
pub enum AccountConflict {
    EmailTaken,
    UsernameTaken,
}

/// A refused insert of a new account: a unique-key violation (code
/// `23505`) is a taken e-mail when its constraint names `email`, else a
/// taken user name; any other failure is no conflict.
pub fn insert_conflict(code: Option<&str>, constraint: Option<&str>) -> (r: Option<AccountConflict>)
    ensures
        match code {
            Some(c) => if c@ == "23505"@ {
                match constraint {
                    Some(k) => if exists|i: int| occurs_at(k@, "email"@, i) {
                        r == Some(AccountConflict::EmailTaken)
                    } else {
                        r == Some(AccountConflict::UsernameTaken)
                    },
                    None => r == Some(AccountConflict::UsernameTaken),
                }
            } else {
                r is None
            },
            None => r is None,
        },
{
    match code {
        Some(c) => {
            if !str_eq(c, "23505") {
                return None;
            }
            let k: &str = match constraint {
                Some(k) => k,
                None => {
                    return Some(AccountConflict::UsernameTaken);
                },
            };
            if has_substring(k, "email") {
                Some(AccountConflict::EmailTaken)
            } else {
                Some(AccountConflict::UsernameTaken)
            }
        },
        None => None,
    }
}

} // verus!
