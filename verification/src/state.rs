//! The game state the decision logic reads: phase, seats, markets, board.

use vstd::prelude::*;

use crate::map::{id_views, GameMap};
use crate::market::{PlantMarket, ResourceMarket};
use crate::text::contains_str;
use crate::types::{Player, PlayerId, PowerPlant};

verus! {

/// A running auction for one plant.
#[derive(Debug)]
pub struct ActiveBid {
    pub plant_number: u8,
    pub amount: u32,
    pub highest_bidder: PlayerId,
    /// Players still in the auction; the first one is to respond next.
    pub remaining_bidders: Vec<PlayerId>,
}

/// Where the game stands.
#[derive(Debug)]
pub enum Phase {
    Lobby,
    PlayerOrder,
    Auction {
        current_bidder_idx: usize,
        active_bid: Option<ActiveBid>,
        bought: Vec<PlayerId>,
        passed: Vec<PlayerId>,
    },
    /// `player` holds four plants after buying `new_plant` and must drop one.
    DiscardPlant { player: PlayerId, new_plant: PowerPlant },
    /// `player` must drop `drop_total` units of gas and oil that no longer fit.
    DiscardResource { player: PlayerId, drop_total: u8 },
    BuyResources { remaining: Vec<PlayerId> },
    BuildCities { remaining: Vec<PlayerId> },
    Bureaucracy { remaining: Vec<PlayerId> },
    /// `player` fires `plant_numbers` and must split `hybrid_cost` units between
    /// gas and oil for the hybrid plants among them.
    PowerCitiesFuel { player: PlayerId, plant_numbers: Vec<u8>, hybrid_cost: u8 },
    GameOver,
}

/// A game in progress.
#[derive(Debug)]
pub struct GameState {
    pub phase: Phase,
    pub players: Vec<Player>,
    /// Seating order for this round.
    pub player_order: Vec<PlayerId>,
    pub market: PlantMarket,
    pub resources: ResourceMarket,
    pub map: GameMap,
    /// Game step, 1 to 3; a city takes at most `step` houses.
    pub step: u8,
    pub round: u32,
    /// City count that ends the game.
    pub end_game_cities: u8,
    pub active_regions: Vec<String>,
}

/// Index of the first seat of `players` with id `id`.
pub open spec fn find_player(players: Seq<Player>, id: PlayerId) -> Option<int> {
    if exists|i: int| 0 <= i < players.len() && (#[trigger] players[i]).id == id {
        Some(choose|i: int| 0 <= i < players.len() && (#[trigger] players[i]).id == id
            && forall|j: int| 0 <= j < i ==> (#[trigger] players[j]).id != id)
    } else {
        None
    }
}

/// Ids of the cities (in board order) where `who` has built.
pub open spec fn owned_city_ids(cities: Seq<crate::map::City>, who: PlayerId) -> Seq<String>
    decreases cities.len(),
{
    if cities.len() == 0 {
        seq![]
    } else {
        let rest = owned_city_ids(cities.drop_last(), who);
        if cities.last().owners@.contains(who) { rest.push(cities.last().id) } else { rest }
    }
}

/// Whether `who` appears in `ids`.
pub fn contains_id(ids: &Vec<PlayerId>, who: PlayerId) -> (r: bool)
    ensures
        r == ids@.contains(who),
{
    let mut i: usize = 0;
    while i < ids.len()
        invariant
            i <= ids.len(),
            forall|j: int| 0 <= j < i ==> ids@[j] != who,
        decreases ids.len() - i,
    {
        if ids[i] == who {
            return true;
        }
        i = i + 1;
    }
    false
}

/// The first id of `ids`, if any.
pub fn first_id(ids: &Vec<PlayerId>) -> (r: Option<PlayerId>)
    ensures
        r == (if ids@.len() > 0 { Some(ids@[0]) } else { None::<PlayerId> }),
{
    if ids.len() > 0 { Some(ids[0]) } else { None }
}

impl GameState {
    /// State invariant the decision logic relies on: the board is well formed.
    pub open spec fn wf(&self) -> bool {
        self.map.wf()
    }

    pub open spec fn spec_player(&self, id: PlayerId) -> Option<Player> {
        match find_player(self.players@, id) {
            Some(i) => Some(self.players@[i]),
            None => None,
        }
    }

    /// The seat with id `id`.
    pub fn player(&self, id: PlayerId) -> (r: Option<&Player>)
        ensures
            match r {
                Some(p) => self.spec_player(id) == Some(*p),
                None => self.spec_player(id) is None,
            },
    {
        let mut i: usize = 0;
        while i < self.players.len()
            invariant
                i <= self.players.len(),
                forall|j: int| 0 <= j < i ==> (#[trigger] self.players@[j]).id != id,
            decreases self.players.len() - i,
        {
            if self.players[i].id == id {
                proof {
                    let c = choose|k: int| 0 <= k < self.players@.len() && (#[trigger] self.players@[k]).id == id
                        && forall|j: int| 0 <= j < k ==> (#[trigger] self.players@[j]).id != id;
                    assert(c == i) by {
                        if c < i {
                        } else if c > i {
                            assert(self.players@[i as int].id == id);
                        }
                    }
                }
                return Some(&self.players[i]);
            }
            i = i + 1;
        }
        None
    }

    /// Ids of the cities where `who` has built, in board order.
    pub fn player_cities(&self, who: PlayerId) -> (r: Vec<String>)
        ensures
            id_views(r@) == id_views(owned_city_ids(self.map.cities@, who)),
    {
        let mut r: Vec<String> = Vec::new();
        let mut i: usize = 0;
        while i < self.map.cities.len()
            invariant
                i <= self.map.cities.len(),
                id_views(r@) == id_views(owned_city_ids(self.map.cities@.subrange(0, i as int), who)),
            decreases self.map.cities.len() - i,
        {
            proof {
                assert(self.map.cities@.subrange(0, i + 1).drop_last() == self.map.cities@.subrange(0, i as int));
            }
            let ghost before = r@;
            if contains_id(&self.map.cities[i].owners, who) {
                r.push(self.map.cities[i].id.clone());
                proof {
                    assert(id_views(r@) =~= id_views(before).push(self.map.cities@[i as int].id@));
                    assert(id_views(owned_city_ids(self.map.cities@.subrange(0, i + 1), who)) =~=
                        id_views(owned_city_ids(self.map.cities@.subrange(0, i as int), who)).push(self.map.cities@[i as int].id@));
                }
            }
            i = i + 1;
        }
        proof {
            assert(self.map.cities@.subrange(0, i as int) == self.map.cities@);
        }
        r
    }

    /// Number of cities where `who` has built.
    pub fn player_city_count(&self, who: PlayerId) -> (r: usize)
        ensures
            r == owned_city_ids(self.map.cities@, who).len(),
    {
        let mut n: usize = 0;
        let mut i: usize = 0;
        while i < self.map.cities.len()
            invariant
                i <= self.map.cities.len(),
                n == owned_city_ids(self.map.cities@.subrange(0, i as int), who).len(),
                n <= i,
            decreases self.map.cities.len() - i,
        {
            proof {
                assert(self.map.cities@.subrange(0, i + 1).drop_last() == self.map.cities@.subrange(0, i as int));
            }
            if contains_id(&self.map.cities[i].owners, who) {
                n = n + 1;
            }
            i = i + 1;
        }
        proof {
            assert(self.map.cities@.subrange(0, i as int) == self.map.cities@);
        }
        n
    }

    /// Whether city `i` lies in a region in play.
    pub open spec fn spec_city_active(&self, i: int) -> bool {
        id_views(self.active_regions@).contains(self.map.cities[i].region@)
    }

    pub fn is_city_active(&self, i: usize) -> (r: bool)
        requires
            i < self.map.cities.len(),
        ensures
            r == self.spec_city_active(i as int),
    {
        let r = contains_str(self.active_regions.as_slice(), self.map.cities[i].region.as_str());
        proof {
            let ids = id_views(self.active_regions@);
            if r {
                let j = choose|j: int| 0 <= j < self.active_regions@.len() && (#[trigger] self.active_regions@[j])@ == self.map.cities@[i as int].region@;
                assert(ids[j] == self.map.cities@[i as int].region@);
            } else {
                assert forall|j: int| 0 <= j < ids.len() implies ids[j] != self.map.cities@[i as int].region@ by {
                    assert(ids[j] == self.active_regions@[j]@);
                }
            }
        }
        r
    }
}

} // verus!
