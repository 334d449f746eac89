//! The lobby server's rules: room names and keys, who may add or remove a
//! bot, joining and leaving rooms, room summaries, and the checks on sign-up
//! and login requests. The server performs the lookups and the sending; every
//! decision between them is made here.

use vstd::prelude::*;

use crate::state::{GameState, Phase};
use crate::text::{alphanumeric, has_substring, is_alphanumeric, lex_lt, lowercase, lowercased, occurs_at, trim_str, trimmed};
use crate::types::{PlayerColor, PlayerId};

verus! {

/// Longest room name, in characters.
pub const MAX_ROOM_NAME: usize = 32;
/// Longest player or bot name, in characters.
pub const MAX_PLAYER_NAME: usize = 24;
/// Longest e-mail address, in characters.
pub const MAX_EMAIL: usize = 254;
pub const MIN_USERNAME: usize = 3;
pub const MAX_USERNAME: usize = 24;
pub const MIN_PASSWORD: usize = 8;
pub const MAX_PASSWORD: usize = 128;
/// Seats at one table.
pub const MAX_PLAYERS: u8 = 6;

// ---------------------------------------------------------------------------
// Types
// ---------------------------------------------------------------------------

#[derive(Clone, Copy, Debug, PartialEq, Eq, Structural)]
pub enum BotDifficulty {
    Easy,
    Normal,
    Hard,
    Expert,
}

/// Lobby-level errors: rooms, bots and membership.
#[derive(Debug)]
pub enum LobbyError {
    RoomNotFound { name: String },
    RoomAlreadyExists { name: String },
    InvalidRoomName,
    AlreadyInRoom,
    NotInRoom,
    NotMember,
    NotHost,
    GameAlreadyStarted,
    BotNameEmpty,
    BotNameTooLong,
    BotNotFound,
    InvalidMessage { message: String },
    /// The game refused the new bot; `error` is its reason.
    BotAddFailed { error: String },
}

/// Lobby actions a client can request.
#[derive(Debug)]
pub enum LobbyAction {
    ListRooms,
    CreateRoom { name: String },
    JoinRoom { name: String },
    LeaveRoom,
    /// Add a bot to the current room (host only, before the game starts).
    AddBot { bot_name: String, color: PlayerColor, difficulty: BotDifficulty },
    /// Remove a bot from the current room (host only).
    RemoveBot { bot_id: PlayerId },
}

/// One line of the room list.
#[derive(Debug)]
pub struct RoomSummary {
    pub name: String,
    pub player_count: u8,
    pub max_players: u8,
    pub has_started: bool,
}

/// A room as the lobby's rules see it: its game, the humans connected to
/// it, its host, and whether its result was stored.
pub struct Room {
    pub name: String,
    pub game: GameState,
    pub humans: Vec<PlayerId>,
    /// The human who created the room, or who took it over.
    pub creator_user_id: PlayerId,
    pub results_recorded: bool,
}

/// What the server goes on to do for an accepted lobby action.
#[derive(Debug)]
pub enum LobbyStep {
    ListRooms,
    /// Create the room stored under `key`.
    CreateRoom { key: String },
    /// Join the room stored under `key`; `reconnect` when the user already
    /// holds a seat there.
    JoinRoom { key: String, reconnect: bool },
    LeaveRoom,
    /// Add a bot named `bot_name` (the requested name, trimmed).
    AddBot { bot_name: String, color: PlayerColor, difficulty: BotDifficulty },
    RemoveBot { bot_id: PlayerId },
}

// ---------------------------------------------------------------------------
// Room names
// ---------------------------------------------------------------------------

pub open spec fn room_name_char(c: char) -> bool {
    alphanumeric(c) || c == '-' || c == '_'
}

/// A room name has 1 to `MAX_ROOM_NAME` characters, each a letter, a digit,
/// `-` or `_`.
pub open spec fn valid_room_name(s: Seq<char>) -> bool {
    &&& 0 < s.len() <= MAX_ROOM_NAME
    &&& forall|i: int| 0 <= i < s.len() ==> room_name_char(#[trigger] s[i])
}

/// Checks a requested room name.
pub fn validate_room_name(name: &str) -> (r: Result<(), LobbyError>)
    ensures
        r is Ok <==> valid_room_name(name@),
        r is Err ==> r matches Err(LobbyError::InvalidRoomName),
{
    let len = name.unicode_len();
    if len == 0 || len > MAX_ROOM_NAME {
        return Err(LobbyError::InvalidRoomName);
    }
    let mut i: usize = 0;
    while i < len
        invariant
            len == name@.len(),
            i <= len,
            forall|j: int| 0 <= j < i ==> room_name_char(#[trigger] name@[j]),
        decreases len - i,
    {
        let c = name.get_char(i);
        if !(is_alphanumeric(c) || c == '-' || c == '_') {
            return Err(LobbyError::InvalidRoomName);
        }
        i = i + 1;
    }
    Ok(())
}

/// The key a room is stored and looked up under: its name in lowercase, so
/// names differing only in case name one room.
pub fn room_key(name: &str) -> (r: String)
    ensures
        r@ == lowercased(name@),
{
    lowercase(name)
}

// ---------------------------------------------------------------------------
// Rooms
// ---------------------------------------------------------------------------

impl Room {
    pub open spec fn in_lobby(&self) -> bool {
        self.game.phase is Lobby
    }

    pub open spec fn game_over(&self) -> bool {
        self.game.phase is GameOver
    }

    pub open spec fn has_human(&self, user: PlayerId) -> bool {
        self.humans@.contains(user)
    }

    pub fn new(name: String, game: GameState, creator_user_id: PlayerId) -> (r: Room)
        ensures
            r.name == name,
            r.game == game,
            r.humans@.len() == 0,
            r.creator_user_id == creator_user_id,
            !r.results_recorded,
    {
        Room { name, game, humans: Vec::new(), creator_user_id, results_recorded: false }
    }

    pub fn human_count(&self) -> (r: usize)
        ensures
            r == self.humans@.len(),
    {
        self.humans.len()
    }

    pub fn is_game_over(&self) -> (r: bool)
        ensures
            r == self.game_over(),
    {
        matches!(self.game.phase, Phase::GameOver)
    }

    pub fn is_lobby(&self) -> (r: bool)
        ensures
            r == self.in_lobby(),
    {
        matches!(self.game.phase, Phase::Lobby)
    }

    /// Whether `user` is connected to this room.
    pub fn is_member(&self, user: PlayerId) -> (r: bool)
        ensures
            r == self.has_human(user),
    {
        let mut i: usize = 0;
        while i < self.humans.len()
            invariant
                i <= self.humans@.len(),
                forall|j: int| 0 <= j < i ==> self.humans@[j] != user,
            decreases self.humans@.len() - i,
        {
            if self.humans[i] == user {
                proof {
                    assert(self.humans@[i as int] == user);
                }
                return true;
            }
            i = i + 1;
        }
        false
    }

    /// The room's line in the room list. The player count is the number of
    /// seats taken, kept to its low byte as the wire format's `u8` holds it.
    pub fn summary(&self) -> (r: RoomSummary)
        ensures
            r.name@ == self.name@,
            r.player_count as int == self.game.players@.len() % 256,
            r.max_players == MAX_PLAYERS,
            r.has_started == !self.in_lobby(),
    {
        let n = self.game.players.len();
        RoomSummary {
            name: self.name.as_str().to_owned(),
            player_count: (n % 256) as u8,
            max_players: MAX_PLAYERS,
            has_started: !self.is_lobby(),
        }
    }

    /// A room is dropped once no human is connected and its game is over or
    /// never started.
    pub fn should_drop(&self) -> (r: bool)
        ensures
            r == (self.humans@.len() == 0 && (self.game_over() || self.in_lobby())),
    {
        self.human_count() == 0 && (self.is_game_over() || self.is_lobby())
    }

    /// Claims the one recording of a finished game's result: true exactly
    /// once, the first time it is asked after the game ended.
    pub fn claim_result_recording(&mut self) -> (r: bool)
        ensures
            r == (old(self).game_over() && !old(self).results_recorded),
            final(self).results_recorded == (old(self).results_recorded || r),
            final(self).game == old(self).game,
            final(self).humans == old(self).humans,
            final(self).creator_user_id == old(self).creator_user_id,
            final(self).name == old(self).name,
    {
        if !self.is_game_over() || self.results_recorded {
            return false;
        }
        self.results_recorded = true;
        true
    }
}

// ---------------------------------------------------------------------------
// Leaving
// ---------------------------------------------------------------------------

/// `ids` without `user`, in order.
pub open spec fn without_id(ids: Seq<PlayerId>, user: PlayerId) -> Seq<PlayerId> {
    ids.filter(other_than(user))
}

/// The ids other than `user`.
pub open spec fn other_than(user: PlayerId) -> spec_fn(PlayerId) -> bool {
    |x: PlayerId| x != user
}

fn remove_id(ids: &mut Vec<PlayerId>, user: PlayerId)
    ensures
        final(ids)@ == without_id(old(ids)@, user),
{
    let ghost start = ids@;
    let mut out: Vec<PlayerId> = Vec::new();
    let mut i: usize = 0;
    while i < ids.len()
        invariant
            ids@ == start,
            i <= ids@.len(),
            out@ == without_id(start.subrange(0, i as int), user),
        decreases ids@.len() - i,
    {
        let x = ids[i];
        proof {
            assert(start.subrange(0, i + 1).drop_last() =~= start.subrange(0, i as int));
            reveal(Seq::filter);
        }
        if x != user {
            out.push(x);
        }
        i = i + 1;
    }
    proof {
        assert(start.subrange(0, ids@.len() as int) =~= start);
    }
    *ids = out;
}

/// The seats of `players` whose id is not `user`, in order.
pub open spec fn without_player(players: Seq<crate::types::Player>, user: PlayerId) -> Seq<crate::types::Player> {
    players.filter(|p: crate::types::Player| p.id != user)
}

fn remove_player(players: &mut Vec<crate::types::Player>, user: PlayerId)
    ensures
        final(players)@ == without_player(old(players)@, user),
{
    let ghost start = players@;
    let ghost mut k: int = 0;
    let mut i: usize = 0;
    while i < players.len()
        invariant
            0 <= i <= k <= start.len(),
            players@.len() == i + (start.len() - k),
            players@.subrange(0, i as int) == without_player(start.subrange(0, k), user),
            players@.subrange(i as int, players@.len() as int) == start.subrange(k, start.len() as int),
        decreases players@.len() - i,
    {
        let ghost before = players@;
        proof {
            assert(before[i as int] == start[k]) by {
                assert(before.subrange(i as int, before.len() as int)[0] == before[i as int]);
            }
            assert(start.subrange(0, k + 1).drop_last() =~= start.subrange(0, k));
            reveal(Seq::filter);
        }
        if players[i].id == user {
            players.remove(i);
            proof {
                assert(players@.subrange(0, i as int) =~= before.subrange(0, i as int));
                assert forall|t: int| 0 <= t < players@.len() - i implies #[trigger] players@.subrange(i as int, players@.len() as int)[t] == start.subrange(k + 1, start.len() as int)[t] by {
                    assert(players@[i + t] == before[i + 1 + t]);
                    assert(before.subrange(i as int, before.len() as int)[t + 1] == before[i + 1 + t]);
                    assert(start.subrange(k, start.len() as int)[t + 1] == start[k + 1 + t]);
                }
                assert(players@.len() == before.len() - 1);
                assert(players@.len() - i == start.len() - (k + 1));
                assert(players@.subrange(i as int, players@.len() as int) =~= start.subrange(k + 1, start.len() as int));
                k = k + 1;
            }
        } else {
            proof {
                assert(players@.subrange(0, i + 1) =~= before.subrange(0, i as int).push(start[k]));
                assert forall|t: int| 0 <= t < players@.len() - i - 1 implies #[trigger] players@.subrange(i + 1, players@.len() as int)[t] == start.subrange(k + 1, start.len() as int)[t] by {
                    assert(before.subrange(i as int, before.len() as int)[t + 1] == before[i + 1 + t]);
                    assert(start.subrange(k, start.len() as int)[t + 1] == start[k + 1 + t]);
                }
                assert(players@.len() - i - 1 == start.len() - (k + 1));
                assert(players@.subrange(i + 1, players@.len() as int) =~= start.subrange(k + 1, start.len() as int));
                k = k + 1;
            }
            i = i + 1;
        }
    }
    proof {
        assert(k == start.len());
        assert(start.subrange(0, k) =~= start);
        assert(players@ =~= players@.subrange(0, i as int));
    }
}

impl Room {
    /// `user` leaves: their connection goes; before the game starts their
    /// seat goes too; a leaving host hands the room to the first human left.
    pub fn leave(&mut self, user: PlayerId)
        ensures
            final(self).humans@ == without_id(old(self).humans@, user),
            old(self).in_lobby() ==> final(self).game.players@ == without_player(old(self).game.players@, user),
            old(self).in_lobby() ==> final(self).game.player_order@ == without_id(old(self).game.player_order@, user),
            !old(self).in_lobby() ==> final(self).game == old(self).game,
            final(self).game.phase == old(self).game.phase,
            final(self).creator_user_id == if old(self).creator_user_id == user && final(self).humans@.len() > 0 {
                final(self).humans@[0]
            } else {
                old(self).creator_user_id
            },
            final(self).name == old(self).name,
            final(self).results_recorded == old(self).results_recorded,
    {
        remove_id(&mut self.humans, user);
        if self.is_lobby() {
            remove_player(&mut self.game.players, user);
            remove_id(&mut self.game.player_order, user);
        }
        if self.creator_user_id == user && self.humans.len() > 0 {
            self.creator_user_id = self.humans[0];
        }
    }
}

// ---------------------------------------------------------------------------
// Lobby actions
// ---------------------------------------------------------------------------

/// The key of the room a lobby action needs looked up first: the named room
/// when creating or joining, the current room for leaving and bot changes,
/// none for listing.
pub open spec fn spec_lobby_room_key(action: LobbyAction, current_room: Option<String>) -> Option<Seq<char>> {
    match action {
        LobbyAction::ListRooms => None,
        LobbyAction::CreateRoom { name } => Some(lowercased(name@)),
        LobbyAction::JoinRoom { name } => Some(lowercased(name@)),
        _ => match current_room {
            Some(r) => Some(lowercased(r@)),
            None => None,
        },
    }
}

pub fn lobby_room_key(action: &LobbyAction, current_room: &Option<String>) -> (r: Option<String>)
    ensures
        match r {
            Some(k) => spec_lobby_room_key(*action, *current_room) == Some(k@),
            None => spec_lobby_room_key(*action, *current_room) is None,
        },
{
    match action {
        LobbyAction::ListRooms => None,
        LobbyAction::CreateRoom { name } => Some(room_key(name.as_str())),
        LobbyAction::JoinRoom { name } => Some(room_key(name.as_str())),
        _ => match current_room {
            Some(r) => Some(room_key(r.as_str())),
            None => None,
        },
    }
}

/// The checks a bot change makes, in order: the user is in a room, it
/// exists, and the user hosts it.
pub open spec fn bot_room_error(user: PlayerId, current_room: Option<String>, room: Option<&Room>) -> Option<LobbyError> {
    match current_room {
        None => Some(LobbyError::NotInRoom),
        Some(name) => match room {
            None => Some(LobbyError::RoomNotFound { name }),
            Some(rm) => if rm.creator_user_id != user { Some(LobbyError::NotHost) } else { None },
        },
    }
}

/// What a lobby action leads to, given the room its key found (`room`):
/// - create: an invalid name, then a taken key, is refused;
/// - join: a missing room, then being in a room already, is refused; a user
///   who holds a seat there reconnects;
/// - add a bot: not in a room, room gone, not the host, game started, then
///   an empty or too long trimmed name, is refused;
/// - remove a bot: not in a room, room gone, not the host, is refused;
/// - listing and leaving always go ahead.
pub open spec fn lobby_check_ok(
    action: LobbyAction,
    user: PlayerId,
    current_room: Option<String>,
    room: Option<&Room>,
    r: Result<LobbyStep, LobbyError>,
) -> bool {
    match action {
        LobbyAction::ListRooms => r matches Ok(LobbyStep::ListRooms),
        LobbyAction::LeaveRoom => r matches Ok(LobbyStep::LeaveRoom),
        LobbyAction::CreateRoom { name } => if !valid_room_name(name@) {
            r matches Err(LobbyError::InvalidRoomName)
        } else if room is Some {
            r matches Err(LobbyError::RoomAlreadyExists { name: n }) && n@ == name@
        } else {
            r matches Ok(LobbyStep::CreateRoom { key }) && key@ == lowercased(name@)
        },
        LobbyAction::JoinRoom { name } => match room {
            None => r matches Err(LobbyError::RoomNotFound { name: n }) && n@ == name@,
            Some(rm) => if current_room is Some {
                r matches Err(LobbyError::AlreadyInRoom)
            } else {
                r matches Ok(LobbyStep::JoinRoom { key, reconnect }) && key@ == lowercased(name@)
                    && reconnect == rm.has_human(user)
            },
        },
        LobbyAction::AddBot { bot_name, color, difficulty } => match bot_room_error(user, current_room, room) {
            Some(LobbyError::NotInRoom) => r matches Err(LobbyError::NotInRoom),
            Some(LobbyError::NotHost) => r matches Err(LobbyError::NotHost),
            Some(LobbyError::RoomNotFound { name }) => r matches Err(LobbyError::RoomNotFound { name: n }) && n@ == name@,
            Some(_) => false,
            None => {
                let t = trimmed(bot_name@);
                if !room.unwrap().in_lobby() {
                    r matches Err(LobbyError::GameAlreadyStarted)
                } else if t.len() == 0 {
                    r matches Err(LobbyError::BotNameEmpty)
                } else if t.len() > MAX_PLAYER_NAME {
                    r matches Err(LobbyError::BotNameTooLong)
                } else {
                    r matches Ok(LobbyStep::AddBot { bot_name: b, color: c, difficulty: d }) && b@ == t && c == color
                        && d == difficulty
                }
            },
        },
        LobbyAction::RemoveBot { bot_id } => match bot_room_error(user, current_room, room) {
            Some(LobbyError::NotInRoom) => r matches Err(LobbyError::NotInRoom),
            Some(LobbyError::NotHost) => r matches Err(LobbyError::NotHost),
            Some(LobbyError::RoomNotFound { name }) => r matches Err(LobbyError::RoomNotFound { name: n }) && n@ == name@,
            Some(_) => false,
            None => r matches Ok(LobbyStep::RemoveBot { bot_id: b }) && b == bot_id,
        },
    }
}

fn copy_string(s: &String) -> (r: String)
    ensures
        r@ == s@,
{
    s.as_str().to_owned()
}

fn check_bot_room(user: PlayerId, current_room: &Option<String>, room: Option<&Room>) -> (r: Result<(), LobbyError>)
    ensures
        match bot_room_error(user, *current_room, room) {
            None => r is Ok,
            Some(LobbyError::NotInRoom) => r matches Err(LobbyError::NotInRoom),
            Some(LobbyError::NotHost) => r matches Err(LobbyError::NotHost),
            Some(LobbyError::RoomNotFound { name }) => r matches Err(LobbyError::RoomNotFound { name: n }) && n@ == name@,
            Some(_) => false,
        },
{
    match current_room {
        None => Err(LobbyError::NotInRoom),
        Some(name) => match room {
            None => Err(LobbyError::RoomNotFound { name: copy_string(name) }),
            Some(rm) => if rm.creator_user_id != user { Err(LobbyError::NotHost) } else { Ok(()) },
        },
    }
}

/// Decides a lobby action of `user`, whose current room is `current_room`,
/// given the room found under the action's key (`lobby_room_key`).
pub fn lobby_check(
    action: &LobbyAction,
    user: PlayerId,
    current_room: &Option<String>,
    room: Option<&Room>,
) -> (r: Result<LobbyStep, LobbyError>)
    ensures
        lobby_check_ok(*action, user, *current_room, room, r),
{
    match action {
        LobbyAction::ListRooms => Ok(LobbyStep::ListRooms),
        LobbyAction::LeaveRoom => Ok(LobbyStep::LeaveRoom),
        LobbyAction::CreateRoom { name } => {
            validate_room_name(name.as_str())?;
            if room.is_some() {
                return Err(LobbyError::RoomAlreadyExists { name: copy_string(name) });
            }
            Ok(LobbyStep::CreateRoom { key: room_key(name.as_str()) })
        },
        LobbyAction::JoinRoom { name } => match room {
            None => Err(LobbyError::RoomNotFound { name: copy_string(name) }),
            Some(rm) => {
                if current_room.is_some() {
                    return Err(LobbyError::AlreadyInRoom);
                }
                let reconnect = rm.is_member(user);
                Ok(LobbyStep::JoinRoom { key: room_key(name.as_str()), reconnect })
            },
        },
        LobbyAction::AddBot { bot_name, color, difficulty } => {
            check_bot_room(user, current_room, room)?;
            let rm = room.unwrap();
            if !rm.is_lobby() {
                return Err(LobbyError::GameAlreadyStarted);
            }
            let t = trim_str(bot_name.as_str());
            let n = t.unicode_len();
            if n == 0 {
                return Err(LobbyError::BotNameEmpty);
            }
            if n > MAX_PLAYER_NAME {
                return Err(LobbyError::BotNameTooLong);
            }
            Ok(LobbyStep::AddBot { bot_name: t.to_owned(), color: *color, difficulty: *difficulty })
        },
        LobbyAction::RemoveBot { bot_id } => {
            check_bot_room(user, current_room, room)?;
            Ok(LobbyStep::RemoveBot { bot_id: *bot_id })
        },
    }
}

/// An in-game move of `user` for the room named `room_name`, given the room
/// found under that name: refused when the room is gone, then when the user
/// is not connected to it.
pub fn room_action_check(user: PlayerId, room_name: &str, room: Option<&Room>) -> (r: Result<(), LobbyError>)
    ensures
        match room {
            None => r matches Err(LobbyError::RoomNotFound { name }) && name@ == room_name@,
            Some(rm) => if rm.has_human(user) { r is Ok } else { r matches Err(LobbyError::NotMember) },
        },
{
    match room {
        None => Err(LobbyError::RoomNotFound { name: room_name.to_owned() }),
        Some(rm) => if rm.is_member(user) { Ok(()) } else { Err(LobbyError::NotMember) },
    }
}

/// The lobby error for a refused bot removal, from the game's reason: a
/// started game if the reason says so, else a bot that is not there.
pub fn remove_bot_error(reason: &str) -> (r: LobbyError)
    ensures
        (exists|i: int| occurs_at(reason@, "game has started"@, i)) ==> r matches LobbyError::GameAlreadyStarted,
        !(exists|i: int| occurs_at(reason@, "game has started"@, i)) ==> r matches LobbyError::BotNotFound,
{
    if has_substring(reason, "game has started") {
        LobbyError::GameAlreadyStarted
    } else {
        LobbyError::BotNotFound
    }
}

// ---------------------------------------------------------------------------
// Room list
// ---------------------------------------------------------------------------

/// `a`'s name sorts no later than `b`'s.
pub open spec fn name_leq(a: RoomSummary, b: RoomSummary) -> bool {
    a.name@ == b.name@ || lex_lt(a.name@, b.name@)
}

/// The room list sorted by name; rooms with equal names keep their order.
pub fn sort_summaries(rooms: Vec<RoomSummary>) -> (r: Vec<RoomSummary>)
    ensures
        r@.to_multiset() == rooms@.to_multiset(),
        forall|a: int, b: int| 0 <= a < b < r@.len() ==> name_leq(#[trigger] r@[a], #[trigger] r@[b]),
{
    let mut out = rooms;
    let ghost unsorted = out@;
    let n = out.len();
    let mut k: usize = 0;
    while k < n
        invariant
            out@.len() == n,
            k <= n,
            out@.to_multiset() == unsorted.to_multiset(),
            forall|a: int, b: int| 0 <= a < b < k ==> name_leq(#[trigger] out@[a], #[trigger] out@[b]),
        decreases n - k,
    {
        let ghost before = out@;
        let e = out.remove(k);
        let mut j: usize = k;
        while j > 0 && crate::text::str_lt(e.name.as_str(), out[j - 1].name.as_str())
            invariant
                out@.len() == n - 1,
                j <= k < n,
                out@ == before.remove(k as int),
                forall|t: int| j <= t < k ==> lex_lt(e.name@, (#[trigger] out@[t]).name@),
            decreases j,
        {
            j = j - 1;
        }
        let ghost mid = out@;
        out.insert(j, e);
        proof {
            let ov = out@;
            assert(ov =~= mid.insert(j as int, e));
            if j > 0 {
                crate::text::lemma_lex_lt_total(e.name@, mid[j - 1].name@);
                assert(name_leq(mid[j - 1], e));
            }
            assert forall|a: int, b: int| 0 <= a < b < k + 1 implies name_leq(#[trigger] ov[a], #[trigger] ov[b]) by {
                if a < j && b < j {
                    assert(ov[a] == mid[a] && ov[b] == mid[b]);
                } else if a < j && b == j {
                    if a < j - 1 {
                        assert(name_leq(mid[a], mid[j - 1]));
                        lemma_name_leq_trans(mid[a], mid[j - 1], e);
                    }
                } else if a < j && b > j {
                    assert(ov[b] == mid[b - 1]);
                    assert(name_leq(mid[a], mid[b - 1]));
                } else if a == j {
                    assert(ov[b] == mid[b - 1]);
                    assert(lex_lt(e.name@, mid[b - 1].name@));
                } else {
                    assert(ov[a] == mid[a - 1] && ov[b] == mid[b - 1]);
                }
            }
            broadcast use vstd::seq_lib::to_multiset_insert;
            broadcast use vstd::seq_lib::to_multiset_remove;
            broadcast use vstd::multiset::group_multiset_axioms;
            assert(before[k as int] == e);
            assert(before.remove(k as int).to_multiset() == before.to_multiset().remove(e));
            assert(ov.to_multiset() == mid.to_multiset().insert(e));
            assert(before.to_multiset().contains(e)) by {
                broadcast use vstd::seq_lib::to_multiset_contains;
                assert(before.contains(e));
            }
            assert(ov.to_multiset() =~= before.to_multiset());
        }
        k = k + 1;
    }
    out
}

proof fn lemma_name_leq_trans(a: RoomSummary, b: RoomSummary, c: RoomSummary)
    requires
        name_leq(a, b),
        name_leq(b, c),
    ensures
        name_leq(a, c),
{
    if a.name@ != b.name@ && b.name@ != c.name@ {
        crate::text::lemma_lex_lt_transitive(a.name@, b.name@, c.name@);
    }
}

// ---------------------------------------------------------------------------
// Sign-up and login
// ---------------------------------------------------------------------------

/// A sign-up request.
pub struct RegisterReq {
    pub email: String,
    pub username: String,
    pub password: String,
}

/// A login request; `identifier` is an e-mail address or a user name.
pub struct LoginReq {
    pub identifier: String,
    pub password: String,
}

/// The body of a refused request.
pub struct ErrResp {
    pub error: String,
}

pub open spec fn username_char(c: char) -> bool {
    alphanumeric(c) || c == '-' || c == '_'
}

/// Why a sign-up request is refused, checked in this order, or `None`.
pub open spec fn register_error(req: RegisterReq) -> Option<Seq<char>> {
    let e = req.email@;
    let u = req.username@;
    let p = req.password@;
    if !e.contains('@') || e.len() > MAX_EMAIL {
        Some("email must contain @ and be at most 254 characters"@)
    } else if !(MIN_USERNAME <= u.len() <= MAX_USERNAME) {
        Some("username must be 3\u{2013}24 characters"@)
    } else if !(forall|i: int| 0 <= i < u.len() ==> username_char(#[trigger] u[i])) {
        Some("username may only contain letters, digits, hyphens, and underscores"@)
    } else if !(MIN_PASSWORD <= p.len() <= MAX_PASSWORD) {
        Some("password must be 8\u{2013}128 characters"@)
    } else {
        None
    }
}

fn has_char(s: &str, c: char) -> (r: bool)
    ensures
        r == s@.contains(c),
{
    let n = s.unicode_len();
    let mut i: usize = 0;
    while i < n
        invariant
            n == s@.len(),
            i <= n,
            forall|j: int| 0 <= j < i ==> s@[j] != c,
        decreases n - i,
    {
        if s.get_char(i) == c {
            proof {
                assert(s@[i as int] == c);
            }
            return true;
        }
        i = i + 1;
    }
    false
}

fn refused(msg: &str) -> (r: Result<(), ErrResp>)
    ensures
        r matches Err(e) && e.error@ == msg@,
{
    Err(ErrResp { error: msg.to_owned() })
}

/// Checks a sign-up request before it reaches the user store.
pub fn check_register(req: &RegisterReq) -> (r: Result<(), ErrResp>)
    ensures
        match register_error(*req) {
            None => r is Ok,
            Some(m) => r matches Err(e) && e.error@ == m,
        },
{
    let elen = req.email.as_str().unicode_len();
    if !has_char(req.email.as_str(), '@') || elen > MAX_EMAIL {
        return refused("email must contain @ and be at most 254 characters");
    }
    let u = req.username.as_str();
    let ulen = u.unicode_len();
    if !(MIN_USERNAME <= ulen && ulen <= MAX_USERNAME) {
        return refused("username must be 3\u{2013}24 characters");
    }
    let mut i: usize = 0;
    while i < ulen
        invariant
            ulen == u@.len(),
            u@ == req.username@,
            req.email@.contains('@') && req.email@.len() <= MAX_EMAIL,
            MIN_USERNAME <= ulen <= MAX_USERNAME,
            i <= ulen,
            forall|j: int| 0 <= j < i ==> username_char(#[trigger] u@[j]),
        decreases ulen - i,
    {
        let c = u.get_char(i);
        if !(is_alphanumeric(c) || c == '-' || c == '_') {
            proof {
                assert(!username_char(req.username@[i as int]));
            }
            return refused("username may only contain letters, digits, hyphens, and underscores");
        }
        i = i + 1;
    }
    let plen = req.password.as_str().unicode_len();
    if !(MIN_PASSWORD <= plen && plen <= MAX_PASSWORD) {
        return refused("password must be 8\u{2013}128 characters");
    }
    Ok(())
}

/// A login request is refused as "invalid credentials" when its identifier
/// or password is longer than any stored one can be.
pub fn check_login(req: &LoginReq) -> (r: Result<(), ErrResp>)
    ensures
        (req.identifier@.len() > MAX_EMAIL || req.password@.len() > MAX_PASSWORD) ==> (r matches Err(e)
            && e.error@ == "invalid credentials"@),
        !(req.identifier@.len() > MAX_EMAIL || req.password@.len() > MAX_PASSWORD) ==> r is Ok,
{
    if req.identifier.as_str().unicode_len() > MAX_EMAIL {
        return refused("invalid credentials");
    }
    if req.password.as_str().unicode_len() > MAX_PASSWORD {
        return refused("invalid credentials");
    }
    Ok(())
}

/// Leaving takes exactly the leaver out of the room's humans: they are no
/// longer there, and everyone else who was there still is.
pub proof fn lemma_leave_removes_user(humans: Seq<PlayerId>, user: PlayerId)
    ensures
        !without_id(humans, user).contains(user),
        forall|x: PlayerId| x != user ==> (humans.contains(x) <==> #[trigger] without_id(humans, user).contains(x)),
{
    broadcast use vstd::seq_lib::group_filter_ensures;
    let keep = other_than(user);
    let rest = humans.filter(keep);
    if rest.contains(user) {
        let i = choose|i: int| 0 <= i < rest.len() && rest[i] == user;
        assert(keep(rest[i]));
    }
    assert forall|x: PlayerId| x != user implies (humans.contains(x) <==> #[trigger] rest.contains(x)) by {
        if humans.contains(x) {
            let i = choose|i: int| 0 <= i < humans.len() && humans[i] == x;
            assert(keep(humans[i]));
        }
        if rest.contains(x) {
            humans.lemma_filter_contains_rev(keep, x);
        }
    }
}

} // verus!
