//! Flat action space of the learned policy: which primitive moves are legal
//! for the actor, the action mask, and decoding an action id back to a move.
//! The layout is compiled against the default (USA) board.

use vstd::prelude::*;
use vstd::relations::{sorted_by, total_ordering};
use vstd::seq_lib::lemma_sorted_unique;

use crate::action::Action;
use crate::buying::{plant_leq, sat_sub, sort_plants};
use crate::map::{id_views, GameMap};
use crate::market::{spec_effective_min_bid, effective_min_bid};
use crate::state::{contains_id, find_player, first_id, owned_city_ids, ActiveBid, GameState, Phase};
use crate::text::str_eq;
use crate::types::{
    spec_can_add, spec_connection_cost, connection_cost, PlantKind, Player, PlayerId, PlayerResources,
    PowerPlant, Resource,
};

verus! {

/// Number of cities of the default board.
pub const N_CITIES: usize = 49;
/// Number of regions of the default board.
pub const N_REGIONS: usize = 7;

/// Length of the observation vector: own money, fuel, plants and cities;
/// opponents' summary and cities; city slots; active regions; both plant
/// markets and their metadata; the resource market; phase scalars and
/// scratch; per-city connection cost; opponents' fuel demand and plants.
pub const OBS_SIZE: usize = 1 + 4 + 15 + N_CITIES + 20 + 5 * N_CITIES + N_CITIES + N_REGIONS + 24 + 20 + 3 + 4
    + 5 + 8 + N_CITIES + 4 + 5 * 3 * 5;

/// The `i`-th city id of the default board, in sorted order.
pub open spec fn spec_city_id(i: int) -> Seq<char> {
    match i as usize {
        0 => "albuquerque"@,
        1 => "atlanta"@,
        2 => "boston"@,
        3 => "calgary"@,
        4 => "charlotte"@,
        5 => "chicago"@,
        6 => "chihuahua"@,
        7 => "columbus"@,
        8 => "dallas"@,
        9 => "denver"@,
        10 => "detroit"@,
        11 => "edmonton"@,
        12 => "guadalajara"@,
        13 => "houston"@,
        14 => "indianapolis"@,
        15 => "jacksonville"@,
        16 => "juarez"@,
        17 => "kansascity"@,
        18 => "lasvegas"@,
        19 => "losangeles"@,
        20 => "memphis"@,
        21 => "mexicocityn"@,
        22 => "mexicocitys"@,
        23 => "miami"@,
        24 => "milwaukee"@,
        25 => "minneapolis"@,
        26 => "monterrey"@,
        27 => "montreal"@,
        28 => "nashville"@,
        29 => "neworleans"@,
        30 => "newyorkn"@,
        31 => "newyorks"@,
        32 => "oklahomacity"@,
        33 => "ottawa"@,
        34 => "philadelphia"@,
        35 => "pittsburgh"@,
        36 => "portland"@,
        37 => "quebec"@,
        38 => "regina"@,
        39 => "saltlakecity"@,
        40 => "sanantonio"@,
        41 => "sandiego"@,
        42 => "sanfrancisco"@,
        43 => "seattle"@,
        44 => "stlouis"@,
        45 => "toronto"@,
        46 => "vancouver"@,
        47 => "washington"@,
        48 => "winnipeg"@,
        _ => seq![],
    }
}

/// The `i`-th city id of the default board, in sorted order.
pub fn city_id(i: usize) -> (r: &'static str)
    requires
        i < N_CITIES,
    ensures
        r@ == spec_city_id(i as int),
{
    match i {
        0 => "albuquerque",
        1 => "atlanta",
        2 => "boston",
        3 => "calgary",
        4 => "charlotte",
        5 => "chicago",
        6 => "chihuahua",
        7 => "columbus",
        8 => "dallas",
        9 => "denver",
        10 => "detroit",
        11 => "edmonton",
        12 => "guadalajara",
        13 => "houston",
        14 => "indianapolis",
        15 => "jacksonville",
        16 => "juarez",
        17 => "kansascity",
        18 => "lasvegas",
        19 => "losangeles",
        20 => "memphis",
        21 => "mexicocityn",
        22 => "mexicocitys",
        23 => "miami",
        24 => "milwaukee",
        25 => "minneapolis",
        26 => "monterrey",
        27 => "montreal",
        28 => "nashville",
        29 => "neworleans",
        30 => "newyorkn",
        31 => "newyorks",
        32 => "oklahomacity",
        33 => "ottawa",
        34 => "philadelphia",
        35 => "pittsburgh",
        36 => "portland",
        37 => "quebec",
        38 => "regina",
        39 => "saltlakecity",
        40 => "sanantonio",
        41 => "sandiego",
        42 => "sanfrancisco",
        43 => "seattle",
        44 => "stlouis",
        45 => "toronto",
        46 => "vancouver",
        47 => "washington",
        48 => "winnipeg",
        _ => "winnipeg",
    }
}

/// Position of `city_id` among the default board's cities.
pub open spec fn spec_city_index(city_id: Seq<char>) -> Option<usize> {
    if exists|i: int| 0 <= i < N_CITIES && spec_city_id(i) == city_id {
        Some((choose|i: int| 0 <= i < N_CITIES && spec_city_id(i) == city_id
            && forall|j: int| 0 <= j < i ==> spec_city_id(j) != city_id) as usize)
    } else {
        None
    }
}

pub fn city_index(city_id_str: &str) -> (r: Option<usize>)
    ensures
        r == spec_city_index(city_id_str@),
        r matches Some(i) ==> i < N_CITIES && spec_city_id(i as int) == city_id_str@,
{
    let mut i: usize = 0;
    while i < N_CITIES
        invariant
            i <= N_CITIES,
            forall|j: int| 0 <= j < i ==> spec_city_id(j) != city_id_str@,
        decreases N_CITIES - i,
    {
        if str_eq(city_id(i), city_id_str) {
            proof {
                let c = choose|k: int| 0 <= k < N_CITIES && spec_city_id(k) == city_id_str@
                    && forall|j: int| 0 <= j < k ==> spec_city_id(j) != city_id_str@;
                assert(c == i) by {
                    if c > i {
                        assert(spec_city_id(i as int) == city_id_str@);
                    }
                }
            }
            return Some(i);
        }
        i = i + 1;
    }
    None
}

/// Bit `i` of `mask` is set.
pub open spec fn bit_set(mask: u8, i: int) -> bool {
    (mask >> (i as u8)) & 1u8 == 1u8
}

/// Reads bit `i` of `mask`.
pub fn test_bit(mask: u8, i: usize) -> (r: bool)
    requires
        i < 8,
    ensures
        r == bit_set(mask, i as int),
{
    let b = i as u8;
    let r = mask & (1u8 << b) != 0;
    assert(r == ((mask >> b) & 1u8 == 1u8)) by (bit_vector)
        requires
            b < 8,
            r == (mask & (1u8 << b) != 0),
    ;
    r
}

/// Fuel the plants of `kind` among the first `k` of `plants` that `mask`
/// selects burn in one firing.
pub open spec fn selected_demand(plants: Seq<PowerPlant>, mask: u8, kind: PlantKind, k: int) -> nat
    decreases k,
{
    if k <= 0 {
        0
    } else {
        selected_demand(plants, mask, kind, k - 1) + if k - 1 < plants.len() && bit_set(mask, k - 1)
            && plants[k - 1].kind == kind {
            plants[k - 1].cost as nat
        } else {
            0nat
        }
    }
}

proof fn lemma_selected_demand_mono(plants: Seq<PowerPlant>, mask: u8, kind: PlantKind, j: int, k: int)
    requires
        j <= k,
    ensures
        selected_demand(plants, mask, kind, j) <= selected_demand(plants, mask, kind, k),
    decreases k - j,
{
    if j < k {
        lemma_selected_demand_mono(plants, mask, kind, j, k - 1);
    }
}

/// Number of rack slots a firing mask ranges over: the first three plants.
pub open spec fn rack_slots(plants: Seq<PowerPlant>) -> int {
    if plants.len() < 3 { plants.len() as int } else { 3 }
}

/// Whether the fuel in `res` can fire the plants `mask` selects among the
/// first three of `plants`: every pure-fuel demand is covered by its own
/// resource, and the hybrids by the gas and oil left over.
pub open spec fn spec_subset_feasible(plants: Seq<PowerPlant>, res: PlayerResources, mask: u8) -> bool {
    let n = rack_slots(plants);
    let coal = selected_demand(plants, mask, PlantKind::Coal, n);
    let oil = selected_demand(plants, mask, PlantKind::Oil, n);
    let gas = selected_demand(plants, mask, PlantKind::Gas, n);
    let uranium = selected_demand(plants, mask, PlantKind::Uranium, n);
    let hybrid = selected_demand(plants, mask, PlantKind::GasOrOil, n);
    &&& coal <= res.coal
    &&& oil <= res.oil
    &&& gas <= res.gas
    &&& uranium <= res.uranium
    &&& hybrid <= (res.gas - gas) + (res.oil - oil)
}

pub fn is_subset_feasible(plants: &Vec<PowerPlant>, resources: &PlayerResources, mask: u8) -> (r: bool)
    ensures
        r == spec_subset_feasible(plants@, *resources, mask),
{
    let n: usize = if plants.len() < 3 { plants.len() } else { 3 };
    let ghost ps = plants@;
    let mut coal = resources.coal;
    let mut oil = resources.oil;
    let mut gas = resources.gas;
    let mut uranium = resources.uranium;
    let mut i: usize = 0;
    // Pass 1: pure-fuel plants.
    while i < n
        invariant
            n == rack_slots(ps),
            ps == plants@,
            i <= n,
            coal + selected_demand(ps, mask, PlantKind::Coal, i as int) == resources.coal,
            oil + selected_demand(ps, mask, PlantKind::Oil, i as int) == resources.oil,
            gas + selected_demand(ps, mask, PlantKind::Gas, i as int) == resources.gas,
            uranium + selected_demand(ps, mask, PlantKind::Uranium, i as int) == resources.uranium,
        decreases n - i,
    {
        let plant = plants[i];
        if test_bit(mask, i) {
            match plant.kind {
                PlantKind::Coal => {
                    if coal < plant.cost {
                        proof { lemma_selected_demand_mono(ps, mask, PlantKind::Coal, i + 1, n as int); }
                        return false;
                    }
                    coal = coal - plant.cost;
                },
                PlantKind::Oil => {
                    if oil < plant.cost {
                        proof { lemma_selected_demand_mono(ps, mask, PlantKind::Oil, i + 1, n as int); }
                        return false;
                    }
                    oil = oil - plant.cost;
                },
                PlantKind::Gas => {
                    if gas < plant.cost {
                        proof { lemma_selected_demand_mono(ps, mask, PlantKind::Gas, i + 1, n as int); }
                        return false;
                    }
                    gas = gas - plant.cost;
                },
                PlantKind::Uranium => {
                    if uranium < plant.cost {
                        proof { lemma_selected_demand_mono(ps, mask, PlantKind::Uranium, i + 1, n as int); }
                        return false;
                    }
                    uranium = uranium - plant.cost;
                },
                _ => {},
            }
        }
        i = i + 1;
    }
    // Pass 2: hybrids draw on the gas and oil left over.
    let ghost gas_left = gas;
    let ghost oil_left = oil;
    let mut j: usize = 0;
    while j < n
        invariant
            n == rack_slots(ps),
            ps == plants@,
            j <= n,
            gas + oil + selected_demand(ps, mask, PlantKind::GasOrOil, j as int) == gas_left + oil_left,
            gas_left + selected_demand(ps, mask, PlantKind::Gas, n as int) == resources.gas,
            oil_left + selected_demand(ps, mask, PlantKind::Oil, n as int) == resources.oil,
            selected_demand(ps, mask, PlantKind::Coal, n as int) <= resources.coal,
            selected_demand(ps, mask, PlantKind::Uranium, n as int) <= resources.uranium,
        decreases n - j,
    {
        let plant = plants[j];
        if test_bit(mask, j) && plant.kind == PlantKind::GasOrOil {
            let available = gas as u16 + oil as u16;
            if available < plant.cost as u16 {
                proof { lemma_selected_demand_mono(ps, mask, PlantKind::GasOrOil, j + 1, n as int); }
                return false;
            }
            let use_oil = if plant.cost < oil { plant.cost } else { oil };
            oil = oil - use_oil;
            gas = gas - (plant.cost - use_oil);
        }
        j = j + 1;
    }
    true
}

proof fn lemma_bit_subset(sub: u8, mask: u8, i: int)
    requires
        sub & mask == sub,
        0 <= i < 8,
        bit_set(sub, i),
    ensures
        bit_set(mask, i),
{
    let b = i as u8;
    assert(((sub >> b) & 1u8 == 1u8) && (sub & mask == sub) && b < 8 ==> (mask >> b) & 1u8 == 1u8) by (bit_vector);
}

proof fn lemma_selected_demand_subset(plants: Seq<PowerPlant>, sub: u8, mask: u8, kind: PlantKind, k: int)
    requires
        sub & mask == sub,
        k <= 8,
    ensures
        selected_demand(plants, sub, kind, k) <= selected_demand(plants, mask, kind, k),
    decreases k,
{
    if k > 0 {
        lemma_selected_demand_subset(plants, sub, mask, kind, k - 1);
        if k - 1 < plants.len() && bit_set(sub, k - 1) {
            lemma_bit_subset(sub, mask, k - 1);
        }
    }
}

/// Firing fewer plants never needs more fuel: every subset of a feasible
/// firing set is feasible.
pub proof fn lemma_subset_feasible_downward(plants: Seq<PowerPlant>, res: PlayerResources, mask: u8, sub: u8)
    requires
        spec_subset_feasible(plants, res, mask),
        sub & mask == sub,
    ensures
        spec_subset_feasible(plants, res, sub),
{
    let n = rack_slots(plants);
    lemma_selected_demand_subset(plants, sub, mask, PlantKind::Coal, n);
    lemma_selected_demand_subset(plants, sub, mask, PlantKind::Oil, n);
    lemma_selected_demand_subset(plants, sub, mask, PlantKind::Gas, n);
    lemma_selected_demand_subset(plants, sub, mask, PlantKind::Uranium, n);
    lemma_selected_demand_subset(plants, sub, mask, PlantKind::GasOrOil, n);
}

// ---------------------------------------------------------------------------
// Who acts now
// ---------------------------------------------------------------------------

pub open spec fn seq_first(s: Seq<PlayerId>) -> Option<PlayerId> {
    if s.len() > 0 { Some(s[0]) } else { None }
}

pub open spec fn seq_get(s: Seq<PlayerId>, i: int) -> Option<PlayerId> {
    if 0 <= i < s.len() { Some(s[i]) } else { None }
}

/// The single player expected to act now: the first of the responders in a
/// running auction, the seat at `current_bidder_idx` when an auction opens,
/// the named player of a discard or fuel-split phase, and the first of
/// `remaining` in buying, building and bureaucracy.
pub open spec fn spec_current_actor(state: &GameState) -> Option<PlayerId> {
    match state.phase {
        Phase::Lobby | Phase::PlayerOrder | Phase::GameOver => None,
        Phase::Auction { current_bidder_idx, active_bid, .. } => match active_bid {
            Some(bid) => seq_first(bid.remaining_bidders@),
            None => seq_get(state.player_order@, current_bidder_idx as int),
        },
        Phase::DiscardPlant { player, .. } => Some(player),
        Phase::DiscardResource { player, .. } => Some(player),
        Phase::BuyResources { remaining } => seq_first(remaining@),
        Phase::BuildCities { remaining } => seq_first(remaining@),
        Phase::Bureaucracy { remaining } => seq_first(remaining@),
        Phase::PowerCitiesFuel { player, .. } => Some(player),
    }
}

fn get_id(ids: &Vec<PlayerId>, i: usize) -> (r: Option<PlayerId>)
    ensures
        r == seq_get(ids@, i as int),
{
    if i < ids.len() { Some(ids[i]) } else { None }
}

pub fn current_actor_id(state: &GameState) -> (r: Option<PlayerId>)
    ensures
        r == spec_current_actor(state),
{
    match &state.phase {
        Phase::Lobby | Phase::PlayerOrder | Phase::GameOver => None,
        Phase::Auction { current_bidder_idx, active_bid, .. } => match active_bid {
            Some(bid) => first_id(&bid.remaining_bidders),
            None => get_id(&state.player_order, *current_bidder_idx),
        },
        Phase::DiscardPlant { player, .. } => Some(*player),
        Phase::DiscardResource { player, .. } => Some(*player),
        Phase::BuyResources { remaining } => first_id(remaining),
        Phase::BuildCities { remaining } => first_id(remaining),
        Phase::Bureaucracy { remaining } => first_id(remaining),
        Phase::PowerCitiesFuel { player, .. } => Some(*player),
    }
}

// ---------------------------------------------------------------------------
// Legal-move info
// ---------------------------------------------------------------------------

/// What the actor may legally do right now, per kind of move.
#[derive(Debug)]
pub struct LegalMoveInfo {
    pub pass_auction: bool,
    pub done_buying: bool,
    pub done_building: bool,
    /// Market (`actual`) slots the actor can afford to nominate.
    pub select_plant_slots: Vec<usize>,
    /// Lowest legal raise (standing bid + 1), when affordable.
    pub bid_min: Option<u32>,
    /// Highest legal bid (the actor's money), when a raise is affordable.
    pub bid_max: Option<u32>,
    pub discard_plant_slots: Vec<usize>,
    pub buildable_city_ids: Vec<String>,
    /// Resource indices: coal=0, oil=1, gas=2, uranium=3.
    pub buyable_resources: Vec<u8>,
    /// Feasible firing masks over the actor's first three plants.
    pub power_subsets: Vec<u8>,
    /// Gas amounts that may be dropped in a resource discard (oil = rest).
    pub discard_resource_gas: Vec<u8>,
    /// Gas amounts that may pay a hybrid firing (oil = rest).
    pub fuel_gas: Vec<u8>,
}

impl LegalMoveInfo {
    pub fn empty() -> (r: LegalMoveInfo)
        ensures
            r.is_empty(),
    {
        LegalMoveInfo {
            pass_auction: false,
            done_buying: false,
            done_building: false,
            select_plant_slots: Vec::new(),
            bid_min: None,
            bid_max: None,
            discard_plant_slots: Vec::new(),
            buildable_city_ids: Vec::new(),
            buyable_resources: Vec::new(),
            power_subsets: Vec::new(),
            discard_resource_gas: Vec::new(),
            fuel_gas: Vec::new(),
        }
    }

    /// No move of any kind is legal.
    pub open spec fn is_empty(&self) -> bool {
        &&& !self.pass_auction
        &&& !self.done_buying
        &&& !self.done_building
        &&& self.select_plant_slots@.len() == 0
        &&& self.bid_min is None
        &&& self.bid_max is None
        &&& self.discard_plant_slots@.len() == 0
        &&& self.buildable_city_ids@.len() == 0
        &&& self.buyable_resources@.len() == 0
        &&& self.power_subsets@.len() == 0
        &&& self.discard_resource_gas@.len() == 0
        &&& self.fuel_gas@.len() == 0
    }
}

/// Slots `0..k` of the plant market whose opening bid `money` covers.
pub open spec fn affordable_slots(market: crate::market::PlantMarket, money: u32, k: int) -> Seq<usize>
    decreases k,
{
    if k <= 0 {
        seq![]
    } else {
        let rest = affordable_slots(market, money, k - 1);
        if money >= spec_effective_min_bid(market, market.actual@[k - 1].number) {
            rest.push((k - 1) as usize)
        } else {
            rest
        }
    }
}

/// Gas amounts `g` in `0..k` with `g <= gas_cap` and `total - g <= oil_cap`.
pub open spec fn gas_splits(total: int, gas_cap: int, oil_cap: int, k: int) -> Seq<u8>
    decreases k,
{
    if k <= 0 {
        seq![]
    } else {
        let rest = gas_splits(total, gas_cap, oil_cap, k - 1);
        let g = k - 1;
        if g <= gas_cap && total - g <= oil_cap { rest.push(g as u8) } else { rest }
    }
}

/// The resource with index `ri` (coal, oil, gas, uranium).
pub open spec fn resource_at(ri: int) -> Resource {
    if ri == 0 { Resource::Coal } else if ri == 1 { Resource::Oil } else if ri == 2 { Resource::Gas } else { Resource::Uranium }
}

fn resource_of(ri: usize) -> (r: Resource)
    ensures
        r == resource_at(ri as int),
{
    if ri == 0 { Resource::Coal } else if ri == 1 { Resource::Oil } else if ri == 2 { Resource::Gas } else { Resource::Uranium }
}

/// One more unit of the resource with index `ri` fits `player`'s storage,
/// is on sale, and is affordable.
pub open spec fn can_buy_one(state: &GameState, player: Player, ri: int) -> bool {
    let r = resource_at(ri);
    &&& spec_can_add(player.plants@, player.resources, r, 1)
    &&& state.resources.spec_price(r, 1) is Some
    &&& state.resources.spec_price(r, 1)->0 <= player.money
}

/// Resource indices `0..k` the player can buy one more unit of.
pub open spec fn buyable_indices(state: &GameState, player: Player, k: int) -> Seq<u8>
    decreases k,
{
    if k <= 0 {
        seq![]
    } else {
        let rest = buyable_indices(state, player, k - 1);
        if can_buy_one(state, player, k - 1) { rest.push((k - 1) as u8) } else { rest }
    }
}

/// The player's plants sorted by number: the rack the firing masks range over.
#[verifier::opaque]
pub open spec fn rack_by_number(plants: Seq<PowerPlant>) -> Seq<PowerPlant> {
    plants.sort_by(plant_leq(false))
}

/// Masks `0..k`, over the first three plants by number, the player's fuel
/// can fire.
pub open spec fn feasible_masks(player: Player, k: int) -> Seq<u8>
    decreases k,
{
    if k <= 0 {
        seq![]
    } else {
        let rest = feasible_masks(player, k - 1);
        if spec_subset_feasible(rack_by_number(player.plants@), player.resources, (k - 1) as u8) {
            rest.push((k - 1) as u8)
        } else {
            rest
        }
    }
}

/// City `i` is open to `actor`: in play, a free house slot this step, not
/// yet built by `actor`, and reachable for at most `money` including the fee.
pub open spec fn city_buildable(state: &GameState, actor: PlayerId, money: u32, i: int) -> bool {
    let city = state.map.cities@[i];
    let owned = id_views(owned_city_ids(state.map.cities@, actor));
    &&& state.spec_city_active(i)
    &&& city.owners@.len() < state.step
    &&& !city.owners@.contains(actor)
    &&& match state.map.spec_connection_cost(owned, city.id@) {
        Some(route) => route + spec_connection_cost(city.owners@.len()) <= money,
        None => false,
    }
}

/// Ids of the cities among the first `k` of the board that are open to `actor`.
pub open spec fn buildable_ids(state: &GameState, actor: PlayerId, money: u32, k: int) -> Seq<Seq<char>>
    decreases k,
{
    if k <= 0 {
        seq![]
    } else {
        let rest = buildable_ids(state, actor, money, k - 1);
        if city_buildable(state, actor, money, k - 1) { rest.push(state.map.cities@[k - 1].id@) } else { rest }
    }
}

/// First plant of `plants` numbered `number`.
pub open spec fn find_plant(plants: Seq<PowerPlant>, number: u8) -> Option<int> {
    if exists|i: int| 0 <= i < plants.len() && (#[trigger] plants[i]).number == number {
        Some(choose|i: int| 0 <= i < plants.len() && (#[trigger] plants[i]).number == number
            && forall|j: int| 0 <= j < i ==> (#[trigger] plants[j]).number != number)
    } else {
        None
    }
}

/// Fuel of `kind` the plants named by the first `k` of `numbers` burn.
pub open spec fn named_demand(plants: Seq<PowerPlant>, numbers: Seq<u8>, kind: PlantKind, k: int) -> nat
    decreases k,
{
    if k <= 0 {
        0
    } else {
        named_demand(plants, numbers, kind, k - 1) + match find_plant(plants, numbers[k - 1]) {
            Some(i) => if plants[i].kind == kind { plants[i].cost as nat } else { 0nat },
            None => 0nat,
        }
    }
}

/// `info` holds exactly the given per-kind legal moves.
pub open spec fn info_is(
    info: &LegalMoveInfo,
    pass_auction: bool,
    done_buying: bool,
    done_building: bool,
    select_plant_slots: Seq<usize>,
    bid_min: Option<u32>,
    bid_max: Option<u32>,
    discard_plant_slots: Seq<usize>,
    buildable_city_ids: Seq<Seq<char>>,
    buyable_resources: Seq<u8>,
    power_subsets: Seq<u8>,
    discard_resource_gas: Seq<u8>,
    fuel_gas: Seq<u8>,
) -> bool {
    &&& info.pass_auction == pass_auction
    &&& info.done_buying == done_buying
    &&& info.done_building == done_building
    &&& info.select_plant_slots@ == select_plant_slots
    &&& info.bid_min == bid_min
    &&& info.bid_max == bid_max
    &&& info.discard_plant_slots@ == discard_plant_slots
    &&& id_views(info.buildable_city_ids@) == buildable_city_ids
    &&& info.buyable_resources@ == buyable_resources
    &&& info.power_subsets@ == power_subsets
    &&& info.discard_resource_gas@ == discard_resource_gas
    &&& info.fuel_gas@ == fuel_gas
}

/// Masks over the first `n` rack slots: `0..2^n`.
pub open spec fn mask_count(n: int) -> int {
    if n <= 0 { 1 } else if n == 1 { 2 } else if n == 2 { 4 } else { 8 }
}

/// The legal moves of `actor` in `state`, per phase:
/// - auction, responding to a standing bid: pass, and raise by one when affordable;
/// - auction, opening: nominate any affordable market plant, and pass after round 1;
/// - discarding a plant: any owned plant;
/// - discarding gas/oil: any split of the amount that the holdings cover;
/// - buying: done, and one more unit of each resource that fits, is on sale and is affordable;
/// - building: done, and every open city;
/// - bureaucracy: every firing mask the fuel covers;
/// - splitting a hybrid firing: every split the fuel left after pure plants covers.
/// Nothing is legal for a player not seated or not on turn.
pub open spec fn legal_info_ok(state: &GameState, actor: PlayerId, info: &LegalMoveInfo) -> bool {
    match state.spec_player(actor) {
        None => info.is_empty(),
        Some(p) => match state.phase {
            Phase::Auction { current_bidder_idx, active_bid, bought, passed } => match active_bid {
                Some(bid) => if seq_first(bid.remaining_bidders@) == Some(actor) {
                    let min_bid = (bid.amount + 1) as u32;
                    let ok = p.money >= min_bid;
                    info_is(info, true, false, false, seq![],
                        if ok { Some(min_bid) } else { None },
                        if ok { Some(p.money) } else { None },
                        seq![], seq![], seq![], seq![], seq![], seq![])
                } else {
                    info.is_empty()
                },
                None => if seq_get(state.player_order@, current_bidder_idx as int) == Some(actor)
                    && !bought@.contains(actor) && !passed@.contains(actor) {
                    info_is(info, state.round > 1, false, false,
                        affordable_slots(state.market, p.money, state.market.actual@.len() as int),
                        None, None, seq![], seq![], seq![], seq![], seq![], seq![])
                } else {
                    info.is_empty()
                },
            },
            Phase::DiscardPlant { player, .. } => if player == actor {
                info_is(info, false, false, false, seq![], None, None,
                    Seq::new(p.plants@.len(), |i: int| i as usize),
                    seq![], seq![], seq![], seq![], seq![])
            } else {
                info.is_empty()
            },
            Phase::DiscardResource { player, drop_total } => if player == actor {
                info_is(info, false, false, false, seq![], None, None, seq![], seq![], seq![], seq![],
                    gas_splits(drop_total as int, p.resources.gas as int, p.resources.oil as int, drop_total + 1),
                    seq![])
            } else {
                info.is_empty()
            },
            Phase::BuyResources { remaining } => if seq_first(remaining@) == Some(actor) {
                info_is(info, false, true, false, seq![], None, None, seq![], seq![],
                    buyable_indices(state, p, 4), seq![], seq![], seq![])
            } else {
                info.is_empty()
            },
            Phase::BuildCities { remaining } => if seq_first(remaining@) == Some(actor) {
                info_is(info, false, false, true, seq![], None, None, seq![],
                    buildable_ids(state, actor, p.money, state.map.cities@.len() as int),
                    seq![], seq![], seq![], seq![])
            } else {
                info.is_empty()
            },
            Phase::Bureaucracy { remaining } => if remaining@.contains(actor) {
                info_is(info, false, false, false, seq![], None, None, seq![], seq![], seq![],
                    feasible_masks(p, mask_count(rack_slots(p.plants@))), seq![], seq![])
            } else {
                info.is_empty()
            },
            Phase::PowerCitiesFuel { player, plant_numbers, hybrid_cost } => if player == actor {
                let gas_left = sat_sub(p.resources.gas as int, named_demand(p.plants@, plant_numbers@, PlantKind::Gas, plant_numbers@.len() as int) as int);
                let oil_left = sat_sub(p.resources.oil as int, named_demand(p.plants@, plant_numbers@, PlantKind::Oil, plant_numbers@.len() as int) as int);
                info_is(info, false, false, false, seq![], None, None, seq![], seq![], seq![], seq![], seq![],
                    gas_splits(hybrid_cost as int, gas_left, oil_left, hybrid_cost + 1))
            } else {
                info.is_empty()
            },
            _ => info.is_empty(),
        },
    }
}

/// Passing an auction that opens with no standing bid is a right earned after
/// the first round: in round 1 (or before) nobody may pass, the opening
/// bidder must nominate a plant; from round 2 on the opening bidder may pass.
pub proof fn lemma_opening_pass_after_first_round(state: &GameState, actor: PlayerId, info: &LegalMoveInfo)
    requires
        legal_info_ok(state, actor, info),
        state.phase matches Phase::Auction { active_bid: None, .. },
    ensures
        state.round <= 1 ==> !info.pass_auction,
        info.pass_auction ==> state.round > 1,
        ({
            let opening_bidder = match state.phase {
                Phase::Auction { current_bidder_idx, bought, passed, .. } =>
                    seq_get(state.player_order@, current_bidder_idx as int) == Some(actor)
                    && !bought@.contains(actor) && !passed@.contains(actor),
                _ => false,
            };
            state.round > 1 && opening_bidder && state.spec_player(actor) is Some ==> info.pass_auction
        }),
{
}

fn affordable_slot_list(market: &crate::market::PlantMarket, money: u32) -> (r: Vec<usize>)
    ensures
        r@ == affordable_slots(*market, money, market.actual@.len() as int),
{
    let mut r: Vec<usize> = Vec::new();
    let mut slot: usize = 0;
    while slot < market.actual.len()
        invariant
            slot <= market.actual.len(),
            r@ == affordable_slots(*market, money, slot as int),
        decreases market.actual.len() - slot,
    {
        if money >= effective_min_bid(market, market.actual[slot].number) {
            r.push(slot);
        }
        slot = slot + 1;
    }
    r
}

fn gas_split_list(total: u8, gas_cap: u64, oil_cap: u64) -> (r: Vec<u8>)
    ensures
        r@ == gas_splits(total as int, gas_cap as int, oil_cap as int, total + 1),
{
    let mut r: Vec<u8> = Vec::new();
    let mut gas: u16 = 0;
    while gas <= total as u16
        invariant
            gas <= total + 1,
            r@ == gas_splits(total as int, gas_cap as int, oil_cap as int, gas as int),
        decreases total + 1 - gas,
    {
        let oil = total as u16 - gas;
        if gas as u64 <= gas_cap && oil as u64 <= oil_cap {
            r.push(gas as u8);
        }
        gas = gas + 1;
    }
    r
}

fn buyable_list(state: &GameState, player: &Player) -> (r: Vec<u8>)
    ensures
        r@ == buyable_indices(state, *player, 4),
{
    let mut r: Vec<u8> = Vec::new();
    let mut ri: usize = 0;
    while ri < 4
        invariant
            ri <= 4,
            r@ == buyable_indices(state, *player, ri as int),
        decreases 4 - ri,
    {
        let resource = resource_of(ri);
        if player.can_add_resource(resource, 1) {
            if let Some(cost) = state.resources.price(resource, 1) {
                if cost <= player.money {
                    r.push(ri as u8);
                }
            }
        }
        ri = ri + 1;
    }
    r
}

fn feasible_mask_list(player: &Player) -> (r: Vec<u8>)
    ensures
        r@ == feasible_masks(*player, mask_count(rack_slots(player.plants@))),
{
    let n: usize = if player.plants.len() < 3 { player.plants.len() } else { 3 };
    let count: u16 = if n == 0 { 1 } else if n == 1 { 2 } else if n == 2 { 4 } else { 8 };
    let rack = sort_plants(&player.plants, false);
    proof {
        reveal(rack_by_number);
    }
    let mut r: Vec<u8> = Vec::new();
    let mut mask: u16 = 0;
    while mask < count
        invariant
            mask <= count,
            count == mask_count(rack_slots(player.plants@)),
            rack@ == rack_by_number(player.plants@),
            r@ == feasible_masks(*player, mask as int),
        decreases count - mask,
    {
        if is_subset_feasible(&rack, &player.resources, mask as u8) {
            r.push(mask as u8);
        }
        mask = mask + 1;
    }
    r
}

fn buildable_list(state: &GameState, actor: PlayerId, money: u32) -> (r: Vec<String>)
    requires
        state.wf(),
    ensures
        id_views(r@) == buildable_ids(state, actor, money, state.map.cities@.len() as int),
{
    let owned = state.player_cities(actor);
    let mut r: Vec<String> = Vec::new();
    let mut i: usize = 0;
    while i < state.map.cities.len()
        invariant
            state.wf(),
            i <= state.map.cities.len(),
            id_views(owned@) == id_views(owned_city_ids(state.map.cities@, actor)),
            id_views(r@) == buildable_ids(state, actor, money, i as int),
        decreases state.map.cities.len() - i,
    {
        let city = &state.map.cities[i];
        let ghost before = r@;
        if state.is_city_active(i) && city.owners.len() < state.step as usize && !contains_id(&city.owners, actor) {
            if let Some(route) = state.map.connection_cost_to(owned.as_slice(), city.id.as_str()) {
                if route as u64 + connection_cost(city.owners.len()) as u64 <= money as u64 {
                    r.push(city.id.clone());
                    proof {
                        assert(id_views(r@) =~= id_views(before).push(city.id@));
                    }
                }
            }
        }
        i = i + 1;
    }
    r
}

pub(crate) fn find_plant_index(plants: &Vec<PowerPlant>, number: u8) -> (r: Option<usize>)
    ensures
        match r {
            Some(i) => find_plant(plants@, number) == Some(i as int) && i < plants.len(),
            None => find_plant(plants@, number) is None,
        },
{
    let mut i: usize = 0;
    while i < plants.len()
        invariant
            i <= plants.len(),
            forall|j: int| 0 <= j < i ==> (#[trigger] plants@[j]).number != number,
        decreases plants.len() - i,
    {
        if plants[i].number == number {
            proof {
                let c = choose|k: int| 0 <= k < plants@.len() && (#[trigger] plants@[k]).number == number
                    && forall|j: int| 0 <= j < k ==> (#[trigger] plants@[j]).number != number;
                assert(c == i) by {
                    if c > i {
                        assert(plants@[i as int].number == number);
                    }
                }
            }
            return Some(i);
        }
        i = i + 1;
    }
    None
}

proof fn lemma_named_demand_bound(plants: Seq<PowerPlant>, numbers: Seq<u8>, kind: PlantKind, k: int)
    requires
        0 <= k,
    ensures
        named_demand(plants, numbers, kind, k) <= 255 * k,
    decreases k,
{
    if k > 0 {
        lemma_named_demand_bound(plants, numbers, kind, k - 1);
    }
}

pub(crate) fn named_fuel(plants: &Vec<PowerPlant>, numbers: &Vec<u8>, kind: PlantKind) -> (r: u128)
    ensures
        r == named_demand(plants@, numbers@, kind, numbers@.len() as int),
{
    let mut total: u128 = 0;
    let mut k: usize = 0;
    while k < numbers.len()
        invariant
            k <= numbers.len(),
            total == named_demand(plants@, numbers@, kind, k as int),
        decreases numbers.len() - k,
    {
        proof {
            lemma_named_demand_bound(plants@, numbers@, kind, k as int);
        }
        match find_plant_index(plants, numbers[k]) {
            Some(i) => {
                if plants[i].kind == kind {
                    total = total + plants[i].cost as u128;
                }
            },
            None => {},
        }
        k = k + 1;
    }
    total
}

fn sat_sub_u128(a: u8, b: u128) -> (r: u64)
    ensures
        r == sat_sub(a as int, b as int),
{
    if a as u128 > b { (a as u128 - b) as u64 } else { 0 }
}

/// What `actor` may legally do in `state`.
pub fn compute_legal_move_info(state: &GameState, actor_id: PlayerId) -> (info: LegalMoveInfo)
    requires
        state.wf(),
        state.phase matches Phase::Auction { active_bid: Some(bid), .. } ==> bid.amount < u32::MAX,
    ensures
        legal_info_ok(state, actor_id, &info),
{
    let mut info = LegalMoveInfo::empty();
    let player = match state.player(actor_id) {
        None => return info,
        Some(p) => p,
    };
    match &state.phase {
        Phase::Lobby | Phase::PlayerOrder | Phase::GameOver => {},
        Phase::Auction { current_bidder_idx, active_bid, bought, passed } => {
            match active_bid {
                Some(bid) => {
                    if first_id(&bid.remaining_bidders) == Some(actor_id) {
                        info.pass_auction = true;
                        let min_bid = bid.amount + 1;
                        if player.money >= min_bid {
                            info.bid_min = Some(min_bid);
                            info.bid_max = Some(player.money);
                        }
                    }
                },
                None => {
                    if get_id(&state.player_order, *current_bidder_idx) == Some(actor_id)
                        && !contains_id(bought, actor_id) && !contains_id(passed, actor_id) {
                        if state.round > 1 {
                            info.pass_auction = true;
                        }
                        info.select_plant_slots = affordable_slot_list(&state.market, player.money);
                    }
                },
            }
        },
        Phase::DiscardPlant { player: discard_player, .. } => {
            if *discard_player == actor_id {
                let mut slot: usize = 0;
                while slot < player.plants.len()
                    invariant
                        slot <= player.plants.len(),
                        info.discard_plant_slots@ == Seq::new(slot as nat, |i: int| i as usize),
                        info.is_empty() || (info.discard_plant_slots@.len() > 0 && !info.pass_auction && !info.done_buying
                            && !info.done_building && info.select_plant_slots@.len() == 0 && info.bid_min is None
                            && info.bid_max is None && info.buildable_city_ids@.len() == 0
                            && info.buyable_resources@.len() == 0 && info.power_subsets@.len() == 0
                            && info.discard_resource_gas@.len() == 0 && info.fuel_gas@.len() == 0),
                    decreases player.plants.len() - slot,
                {
                    info.discard_plant_slots.push(slot);
                    slot = slot + 1;
                    assert(info.discard_plant_slots@ =~= Seq::new(slot as nat, |i: int| i as usize));
                }
                assert(info.discard_plant_slots@ =~= Seq::new(player.plants@.len(), |i: int| i as usize));
            }
        },
        Phase::DiscardResource { player: res_player, drop_total } => {
            if *res_player == actor_id {
                info.discard_resource_gas = gas_split_list(*drop_total, player.resources.gas as u64, player.resources.oil as u64);
            }
        },
        Phase::BuyResources { remaining } => {
            if first_id(remaining) == Some(actor_id) {
                info.done_buying = true;
                info.buyable_resources = buyable_list(state, player);
            }
        },
        Phase::BuildCities { remaining } => {
            if first_id(remaining) == Some(actor_id) {
                info.done_building = true;
                info.buildable_city_ids = buildable_list(state, actor_id, player.money);
            }
        },
        Phase::Bureaucracy { remaining } => {
            if contains_id(remaining, actor_id) {
                info.power_subsets = feasible_mask_list(player);
            }
        },
        Phase::PowerCitiesFuel { player: fuel_player, plant_numbers, hybrid_cost } => {
            if *fuel_player == actor_id {
                let pure_gas = named_fuel(&player.plants, plant_numbers, PlantKind::Gas);
                let pure_oil = named_fuel(&player.plants, plant_numbers, PlantKind::Oil);
                let gas_after_pure = sat_sub_u128(player.resources.gas, pure_gas);
                let oil_after_pure = sat_sub_u128(player.resources.oil, pure_oil);
                info.fuel_gas = gas_split_list(*hybrid_cost, gas_after_pure, oil_after_pure);
            }
        },
    }
    proof {
        if info.buildable_city_ids@.len() == 0 {
            assert(id_views(info.buildable_city_ids@) =~= seq![]);
        }
        if info.select_plant_slots@.len() == 0 {
            assert(info.select_plant_slots@ =~= seq![]);
        }
        if info.discard_plant_slots@.len() == 0 {
            assert(info.discard_plant_slots@ =~= seq![]);
        }
        if info.buyable_resources@.len() == 0 {
            assert(info.buyable_resources@ =~= seq![]);
        }
        if info.power_subsets@.len() == 0 {
            assert(info.power_subsets@ =~= seq![]);
        }
        if info.discard_resource_gas@.len() == 0 {
            assert(info.discard_resource_gas@ =~= seq![]);
        }
        if info.fuel_gas@.len() == 0 {
            assert(info.fuel_gas@ =~= seq![]);
        }
    }
    info
}

// ---------------------------------------------------------------------------
// Action ids
// ---------------------------------------------------------------------------

pub const PASS_AUCTION_IDX: usize = 0;
pub const DONE_BUYING_IDX: usize = 1;
pub const DONE_BUILDING_IDX: usize = 2;
pub const SELECT_PLANT_BASE: usize = 3;
pub const PLACE_BID_BASE: usize = 11;
/// The only representable raise is +1 over the standing bid.
pub const N_BID_ACTIONS: usize = 1;
pub const DISCARD_PLANT_BASE: usize = 12;
pub const BUILD_CITY_BASE: usize = 15;
pub const BUY_RESOURCE_BASE: usize = 64;
pub const POWER_CITIES_BASE: usize = 68;
pub const DISCARD_RESOURCE_BASE: usize = 76;
pub const POWER_FUEL_BASE: usize = 85;
pub const N_ACTIONS: usize = 94;

/// Whether action id `i` is legal given `info`.
pub open spec fn mask_on(info: &LegalMoveInfo, i: int) -> bool {
    if i == PASS_AUCTION_IDX {
        info.pass_auction
    } else if i == DONE_BUYING_IDX {
        info.done_buying
    } else if i == DONE_BUILDING_IDX {
        info.done_building
    } else if SELECT_PLANT_BASE <= i < PLACE_BID_BASE {
        info.select_plant_slots@.contains((i - SELECT_PLANT_BASE) as usize)
    } else if i == PLACE_BID_BASE {
        info.bid_min is Some && info.bid_max is Some && info.bid_min->0 <= info.bid_max->0
    } else if DISCARD_PLANT_BASE <= i < BUILD_CITY_BASE {
        info.discard_plant_slots@.contains((i - DISCARD_PLANT_BASE) as usize)
    } else if BUILD_CITY_BASE <= i < BUY_RESOURCE_BASE {
        exists|j: int| 0 <= j < info.buildable_city_ids@.len()
            && spec_city_index((#[trigger] info.buildable_city_ids@[j])@) == Some((i - BUILD_CITY_BASE) as usize)
    } else if BUY_RESOURCE_BASE <= i < POWER_CITIES_BASE {
        info.buyable_resources@.contains((i - BUY_RESOURCE_BASE) as u8)
    } else if POWER_CITIES_BASE <= i < DISCARD_RESOURCE_BASE {
        info.power_subsets@.contains((i - POWER_CITIES_BASE) as u8)
    } else if DISCARD_RESOURCE_BASE <= i < POWER_FUEL_BASE {
        info.discard_resource_gas@.contains((i - DISCARD_RESOURCE_BASE) as u8)
    } else if POWER_FUEL_BASE <= i < N_ACTIONS {
        info.fuel_gas@.contains((i - POWER_FUEL_BASE) as u8)
    } else {
        false
    }
}

/// The action mask `info` gives: 1 for each legal action id, else 0.
pub open spec fn spec_mask(info: &LegalMoveInfo) -> Seq<u8> {
    Seq::new(N_ACTIONS as nat, |i: int| if mask_on(info, i) { 1u8 } else { 0u8 })
}

/// Sets `mask[base + x] = 1` for every `x < limit` in `list`.
fn mark_u8s(mask: &mut Vec<u8>, base: usize, limit: usize, list: &Vec<u8>)
    requires
        base + limit <= old(mask).len(),
        limit <= 256,
    ensures
        final(mask).len() == old(mask).len(),
        forall|i: int| 0 <= i < final(mask).len() ==> #[trigger] final(mask)[i] == if base <= i < base + limit && list@.contains((i - base) as u8) {
            1u8
        } else {
            old(mask)[i]
        },
{
    let ghost m0 = mask@;
    let mut k: usize = 0;
    while k < list.len()
        invariant
            k <= list.len(),
            base + limit <= mask.len(),
            limit <= 256,
            mask.len() == m0.len(),
            forall|i: int| 0 <= i < mask.len() ==> #[trigger] mask[i] == if base <= i < base + limit
                && list@.subrange(0, k as int).contains((i - base) as u8) {
                1u8
            } else {
                m0[i]
            },
        decreases list.len() - k,
    {
        let x = list[k];
        let ghost before = mask@;
        if (x as usize) < limit {
            mask.set(base + x as usize, 1);
        }
        proof {
            assert forall|i: int| 0 <= i < mask.len() implies #[trigger] mask[i] == if base <= i < base + limit
                && list@.subrange(0, k + 1).contains((i - base) as u8) {
                1u8
            } else {
                m0[i]
            } by {
                let pre = list@.subrange(0, k as int);
                let post = list@.subrange(0, k + 1);
                assert(post == pre.push(x));
                assert(before[i] == if base <= i < base + limit && pre.contains((i - base) as u8) { 1u8 } else { m0[i] });
                if base <= i < base + limit {
                    let y = (i - base) as u8;
                    assert(y == i - base);
                    if pre.contains(y) {
                        let j = choose|j: int| 0 <= j < pre.len() && pre[j] == y;
                        assert(post[j] == pre[j]);
                    }
                    if x == y {
                        assert(post[k as int] == x);
                    }
                    if !pre.contains(y) && x != y {
                        assert forall|j: int| 0 <= j < post.len() implies post[j] != y by {
                            if j < pre.len() {
                                assert(post[j] == pre[j]);
                            }
                        }
                    }
                }
            }
        }
        k = k + 1;
    }
    proof {
        assert(list@.subrange(0, list.len() as int) == list@);
    }
}

/// Sets `mask[base + x] = 1` for every `x < limit` in `list`.
fn mark_usizes(mask: &mut Vec<u8>, base: usize, limit: usize, list: &Vec<usize>)
    requires
        base + limit <= old(mask).len(),
    ensures
        final(mask).len() == old(mask).len(),
        forall|i: int| 0 <= i < final(mask).len() ==> #[trigger] final(mask)[i] == if base <= i < base + limit && list@.contains((i - base) as usize) {
            1u8
        } else {
            old(mask)[i]
        },
{
    let ghost m0 = mask@;
    let mut k: usize = 0;
    while k < list.len()
        invariant
            k <= list.len(),
            base + limit <= mask.len(),
            mask.len() == m0.len(),
            forall|i: int| 0 <= i < mask.len() ==> #[trigger] mask[i] == if base <= i < base + limit
                && list@.subrange(0, k as int).contains((i - base) as usize) {
                1u8
            } else {
                m0[i]
            },
        decreases list.len() - k,
    {
        let x = list[k];
        let ghost before = mask@;
        if x < limit {
            mask.set(base + x, 1);
        }
        proof {
            assert forall|i: int| 0 <= i < mask.len() implies #[trigger] mask[i] == if base <= i < base + limit
                && list@.subrange(0, k + 1).contains((i - base) as usize) {
                1u8
            } else {
                m0[i]
            } by {
                let pre = list@.subrange(0, k as int);
                let post = list@.subrange(0, k + 1);
                assert(post == pre.push(x));
                assert(before[i] == if base <= i < base + limit && pre.contains((i - base) as usize) { 1u8 } else { m0[i] });
                if base <= i < base + limit {
                    let y = (i - base) as usize;
                    assert(y == i - base);
                    if pre.contains(y) {
                        let j = choose|j: int| 0 <= j < pre.len() && pre[j] == y;
                        assert(post[j] == pre[j]);
                    }
                    if x == y {
                        assert(post[k as int] == x);
                    }
                    if !pre.contains(y) && x != y {
                        assert forall|j: int| 0 <= j < post.len() implies post[j] != y by {
                            if j < pre.len() {
                                assert(post[j] == pre[j]);
                            }
                        }
                    }
                }
            }
        }
        k = k + 1;
    }
    proof {
        assert(list@.subrange(0, list.len() as int) == list@);
    }
}

/// Sets the build-city bit of every city of `ids` the default board knows.
fn mark_cities(mask: &mut Vec<u8>, ids: &Vec<String>)
    requires
        old(mask).len() == N_ACTIONS,
    ensures
        final(mask).len() == N_ACTIONS,
        forall|i: int| 0 <= i < N_ACTIONS ==> #[trigger] final(mask)[i] == if BUILD_CITY_BASE <= i < BUY_RESOURCE_BASE
            && exists|j: int| 0 <= j < ids@.len() && spec_city_index((#[trigger] ids@[j])@) == Some((i - BUILD_CITY_BASE) as usize) {
            1u8
        } else {
            old(mask)[i]
        },
{
    let ghost m0 = mask@;
    let mut k: usize = 0;
    while k < ids.len()
        invariant
            k <= ids.len(),
            mask.len() == N_ACTIONS,
            forall|i: int| 0 <= i < N_ACTIONS ==> #[trigger] mask[i] == if BUILD_CITY_BASE <= i < BUY_RESOURCE_BASE
                && exists|j: int| 0 <= j < k && spec_city_index((#[trigger] ids@[j])@) == Some((i - BUILD_CITY_BASE) as usize) {
                1u8
            } else {
                m0[i]
            },
        decreases ids.len() - k,
    {
        let ci = city_index(ids[k].as_str());
        if let Some(c) = ci {
            mask.set(BUILD_CITY_BASE + c, 1);
        }
        proof {
            assert forall|i: int| 0 <= i < N_ACTIONS implies #[trigger] mask[i] == if BUILD_CITY_BASE <= i < BUY_RESOURCE_BASE
                && exists|j: int| 0 <= j < k + 1 && spec_city_index((#[trigger] ids@[j])@) == Some((i - BUILD_CITY_BASE) as usize) {
                1u8
            } else {
                m0[i]
            } by {
                if BUILD_CITY_BASE <= i < BUY_RESOURCE_BASE {
                    if ci == Some((i - BUILD_CITY_BASE) as usize) {
                        assert(spec_city_index(ids@[k as int]@) == Some((i - BUILD_CITY_BASE) as usize));
                    }
                }
            }
        }
        k = k + 1;
    }
}

/// The action mask of `info`.
pub fn mask_from_info(info: &LegalMoveInfo) -> (mask: Vec<u8>)
    ensures
        mask@ == spec_mask(info),
{
    let mut mask: Vec<u8> = Vec::new();
    let mut i: usize = 0;
    while i < N_ACTIONS
        invariant
            i <= N_ACTIONS,
            mask.len() == i,
            forall|j: int| 0 <= j < i ==> mask[j] == 0u8,
        decreases N_ACTIONS - i,
    {
        mask.push(0);
        i = i + 1;
    }
    if info.pass_auction {
        mask.set(PASS_AUCTION_IDX, 1);
    }
    if info.done_buying {
        mask.set(DONE_BUYING_IDX, 1);
    }
    if info.done_building {
        mask.set(DONE_BUILDING_IDX, 1);
    }
    mark_usizes(&mut mask, SELECT_PLANT_BASE, 8, &info.select_plant_slots);
    if let (Some(bid_min), Some(bid_max)) = (info.bid_min, info.bid_max) {
        if bid_min <= bid_max {
            mask.set(PLACE_BID_BASE, 1);
        }
    }
    mark_usizes(&mut mask, DISCARD_PLANT_BASE, 3, &info.discard_plant_slots);
    mark_cities(&mut mask, &info.buildable_city_ids);
    mark_u8s(&mut mask, BUY_RESOURCE_BASE, 4, &info.buyable_resources);
    mark_u8s(&mut mask, POWER_CITIES_BASE, 8, &info.power_subsets);
    mark_u8s(&mut mask, DISCARD_RESOURCE_BASE, 9, &info.discard_resource_gas);
    mark_u8s(&mut mask, POWER_FUEL_BASE, 9, &info.fuel_gas);
    assert(mask@ =~= spec_mask(info));
    mask
}

/// The action mask of the legal moves of `actor` in `state`.
pub open spec fn legal_mask(state: &GameState, actor: PlayerId) -> Seq<u8> {
    spec_mask(&choose|info: LegalMoveInfo| legal_info_ok(state, actor, &info))
}

/// Two infos list the same legal moves.
pub open spec fn same_info(a: &LegalMoveInfo, b: &LegalMoveInfo) -> bool {
    &&& a.pass_auction == b.pass_auction
    &&& a.done_buying == b.done_buying
    &&& a.done_building == b.done_building
    &&& a.select_plant_slots@ == b.select_plant_slots@
    &&& a.bid_min == b.bid_min
    &&& a.bid_max == b.bid_max
    &&& a.discard_plant_slots@ == b.discard_plant_slots@
    &&& id_views(a.buildable_city_ids@) == id_views(b.buildable_city_ids@)
    &&& a.buyable_resources@ == b.buyable_resources@
    &&& a.power_subsets@ == b.power_subsets@
    &&& a.discard_resource_gas@ == b.discard_resource_gas@
    &&& a.fuel_gas@ == b.fuel_gas@
}

proof fn lemma_legal_info_same(state: &GameState, actor: PlayerId, a: &LegalMoveInfo, b: &LegalMoveInfo)
    requires
        legal_info_ok(state, actor, a),
        legal_info_ok(state, actor, b),
    ensures
        same_info(a, b),
{
    if a.is_empty() && b.is_empty() {
        assert(a.select_plant_slots@ =~= b.select_plant_slots@);
        assert(a.discard_plant_slots@ =~= b.discard_plant_slots@);
        assert(id_views(a.buildable_city_ids@) =~= id_views(b.buildable_city_ids@));
        assert(a.buyable_resources@ =~= b.buyable_resources@);
        assert(a.power_subsets@ =~= b.power_subsets@);
        assert(a.discard_resource_gas@ =~= b.discard_resource_gas@);
        assert(a.fuel_gas@ =~= b.fuel_gas@);
    }
}

proof fn lemma_same_info_mask(a: &LegalMoveInfo, b: &LegalMoveInfo)
    requires
        same_info(a, b),
    ensures
        spec_mask(a) == spec_mask(b),
{
    let va = id_views(a.buildable_city_ids@);
    let vb = id_views(b.buildable_city_ids@);
    assert(a.buildable_city_ids@.len() == b.buildable_city_ids@.len()) by {
        assert(va.len() == a.buildable_city_ids@.len());
        assert(vb.len() == b.buildable_city_ids@.len());
    }
    assert forall|i: int| 0 <= i < N_ACTIONS implies mask_on(a, i) == mask_on(b, i) by {
        if BUILD_CITY_BASE <= i < BUY_RESOURCE_BASE {
            let c = (i - BUILD_CITY_BASE) as usize;
            if exists|j: int| 0 <= j < a.buildable_city_ids@.len() && spec_city_index((#[trigger] a.buildable_city_ids@[j])@) == Some(c) {
                let j = choose|j: int| 0 <= j < a.buildable_city_ids@.len() && spec_city_index((#[trigger] a.buildable_city_ids@[j])@) == Some(c);
                assert(va[j] == vb[j]);
                assert(spec_city_index(b.buildable_city_ids@[j]@) == Some(c));
            }
            if exists|j: int| 0 <= j < b.buildable_city_ids@.len() && spec_city_index((#[trigger] b.buildable_city_ids@[j])@) == Some(c) {
                let j = choose|j: int| 0 <= j < b.buildable_city_ids@.len() && spec_city_index((#[trigger] b.buildable_city_ids@[j])@) == Some(c);
                assert(va[j] == vb[j]);
                assert(spec_city_index(a.buildable_city_ids@[j]@) == Some(c));
            }
        }
    }
    assert(spec_mask(a) =~= spec_mask(b));
}

/// The action mask (one entry per action id, 1 = legal) of `actor` in `state`.
pub fn build_action_mask(state: &GameState, actor_id: PlayerId) -> (mask: Vec<u8>)
    requires
        state.wf(),
        state.phase matches Phase::Auction { active_bid: Some(bid), .. } ==> bid.amount < u32::MAX,
    ensures
        mask@ == legal_mask(state, actor_id),
        mask@.len() == N_ACTIONS,
{
    let info = compute_legal_move_info(state, actor_id);
    let mask = mask_from_info(&info);
    proof {
        let c = choose|i: LegalMoveInfo| legal_info_ok(state, actor_id, &i);
        lemma_legal_info_same(state, actor_id, &info, &c);
        lemma_same_info_mask(&info, &c);
    }
    mask
}

// ---------------------------------------------------------------------------
// Action id -> move
// ---------------------------------------------------------------------------

pub open spec fn num_leq() -> spec_fn(u8, u8) -> bool {
    |a: u8, b: u8| a <= b
}

/// The plant numbers of `plants`, in rack order.
pub open spec fn plant_numbers(plants: Seq<PowerPlant>) -> Seq<u8> {
    plants.map_values(|p: PowerPlant| p.number)
}

/// The plant numbers of `plants` in ascending order.
pub open spec fn sorted_numbers(plants: Seq<PowerPlant>) -> Seq<u8> {
    plant_numbers(plants).sort_by(num_leq())
}

pub proof fn lemma_swap_multiset<A>(s: Seq<A>, i: int, j: int)
    requires
        0 <= i < s.len(),
        0 <= j < s.len(),
    ensures
        s.update(i, s[j]).update(j, s[i]).to_multiset() == s.to_multiset(),
{
    broadcast use vstd::seq_lib::to_multiset_update;
    broadcast use vstd::multiset::group_multiset_axioms;
    broadcast use vstd::seq_lib::group_to_multiset_ensures;
    let t = s.update(i, s[j]);
    let m = s.to_multiset();
    assert(t.to_multiset() == m.insert(s[j]).remove(s[i]));
    assert(t.update(j, s[i]).to_multiset() == t.to_multiset().insert(s[i]).remove(t[j]));
    if i == j {
        assert(s.update(i, s[j]).update(j, s[i]) =~= s);
    } else {
        assert(t[j] == s[j]);
        assert(s.contains(s[i]));
        assert(m.count(s[i]) > 0);
        let m2 = m.insert(s[j]).remove(s[i]).insert(s[i]).remove(s[j]);
        assert forall|x: A| m2.count(x) == m.count(x) by {
        }
        assert(m2 =~= m);
    }
}

/// The plant numbers of `plants`, sorted ascending.
pub fn sorted_plant_numbers(plants: &Vec<PowerPlant>) -> (r: Vec<u8>)
    ensures
        r@ == sorted_numbers(plants@),
        r@.len() == plants@.len(),
{
    let mut v: Vec<u8> = Vec::new();
    let mut k: usize = 0;
    while k < plants.len()
        invariant
            k <= plants.len(),
            v@ == plant_numbers(plants@).subrange(0, k as int),
        decreases plants.len() - k,
    {
        v.push(plants[k].number);
        k = k + 1;
        assert(v@ =~= plant_numbers(plants@).subrange(0, k as int));
    }
    assert(v@ =~= plant_numbers(plants@));
    let ghost m = v@.to_multiset();
    let n = v.len();
    let mut i: usize = 1;
    while i < n
        invariant
            v.len() == n,
            n == plants.len(),
            v@.to_multiset() == m,
            n == 0 || 1 <= i <= n,
            forall|a: int, b: int| 0 <= a < b < i ==> v@[a] <= v@[b],
        decreases n - i,
    {
        let mut j: usize = i;
        while j > 0 && v[j - 1] > v[j]
            invariant
                v.len() == n,
                j <= i < n,
                v@.to_multiset() == m,
                forall|a: int, b: int| 0 <= a < b <= i && a != j && b != j ==> v@[a] <= v@[b],
                forall|b: int| j < b <= i ==> v@[j as int] <= v@[b],
            decreases j,
        {
            let ghost before = v@;
            let x = v[j - 1];
            let y = v[j];
            v.set(j - 1, y);
            v.set(j, x);
            proof {
                assert(v@ == before.update(j - 1, before[j as int]).update(j as int, before[j - 1]));
                lemma_swap_multiset(before, j - 1, j as int);
            }
            j = j - 1;
        }
        i = i + 1;
    }
    proof {
        let leq = num_leq();
        assert(total_ordering(leq));
        assert(sorted_by(v@, leq));
        plant_numbers(plants@).lemma_sort_by_ensures(leq);
        lemma_sorted_unique(v@, plant_numbers(plants@).sort_by(leq), leq);
    }
    v
}

/// The plant numbers of the plants `bitmask` selects among the first three
/// of `sorted` (slot `i` = bit `i`), in slot order.
pub open spec fn masked_numbers(sorted: Seq<u8>, bitmask: u8, k: int) -> Seq<u8>
    decreases k,
{
    if k <= 0 {
        seq![]
    } else {
        let rest = masked_numbers(sorted, bitmask, k - 1);
        if k - 1 < sorted.len() && bit_set(bitmask, k - 1) { rest.push(sorted[k - 1]) } else { rest }
    }
}

/// The move action id `aid` stands for in `state` for `actor`:
/// - 0, 1, 2: pass the auction, done buying, done building;
/// - select-plant ids: nominate the plant in that slot of the actual market
///   followed by the future market (pass when the slot is empty);
/// - the bid id: raise the standing bid by one (pass when none stands);
/// - discard-plant ids: drop the actor's plant at that rank by number;
/// - build ids: build in that city of the default board;
/// - buy ids: buy one unit of that resource;
/// - power ids: fire the plants the mask selects among the three lowest-numbered;
/// - discard-resource and fuel ids: drop / burn that much gas, the rest in oil.
pub open spec fn action_for_id(aid: int, state: &GameState, actor: PlayerId, a: Action) -> bool {
    if aid == PASS_AUCTION_IDX {
        a is PassAuction
    } else if aid == DONE_BUYING_IDX {
        a is DoneBuying
    } else if aid == DONE_BUILDING_IDX {
        a is DoneBuilding
    } else if SELECT_PLANT_BASE <= aid < PLACE_BID_BASE {
        let slot = aid - SELECT_PLANT_BASE;
        let all = state.market.actual@ + state.market.future@;
        if slot < all.len() {
            a matches Action::SelectPlant { plant_number } && plant_number == all[slot].number
        } else {
            a is PassAuction
        }
    } else if PLACE_BID_BASE <= aid < DISCARD_PLANT_BASE {
        match state.phase {
            Phase::Auction { active_bid: Some(bid), .. } =>
                a matches Action::PlaceBid { amount } && amount == bid.amount + 1,
            _ => a is PassAuction,
        }
    } else if DISCARD_PLANT_BASE <= aid < BUILD_CITY_BASE {
        let slot = aid - DISCARD_PLANT_BASE;
        match state.spec_player(actor) {
            Some(p) => if slot < p.plants@.len() {
                a matches Action::DiscardPlant { plant_number } && plant_number == sorted_numbers(p.plants@)[slot]
            } else {
                a is PassAuction
            },
            None => a is PassAuction,
        }
    } else if BUILD_CITY_BASE <= aid < BUY_RESOURCE_BASE {
        a matches Action::BuildCity { city_id } && city_id@ == spec_city_id(aid - BUILD_CITY_BASE)
    } else if BUY_RESOURCE_BASE <= aid < POWER_CITIES_BASE {
        a matches Action::BuyResources { resource, amount } && resource == resource_at(aid - BUY_RESOURCE_BASE) && amount == 1
    } else if POWER_CITIES_BASE <= aid < DISCARD_RESOURCE_BASE {
        let bitmask = (aid - POWER_CITIES_BASE) as u8;
        a matches Action::PowerCities { plant_numbers } && plant_numbers@ == match state.spec_player(actor) {
            Some(p) => masked_numbers(sorted_numbers(p.plants@), bitmask, 3),
            None => seq![],
        }
    } else if DISCARD_RESOURCE_BASE <= aid < POWER_FUEL_BASE {
        let gas = aid - DISCARD_RESOURCE_BASE;
        let total: int = match state.phase {
            Phase::DiscardResource { drop_total, .. } => drop_total as int,
            _ => 0,
        };
        a matches Action::DiscardResource { gas: g, oil } && g == gas && oil == sat_sub(total, gas)
    } else if POWER_FUEL_BASE <= aid < N_ACTIONS {
        let gas = aid - POWER_FUEL_BASE;
        let total: int = match state.phase {
            Phase::PowerCitiesFuel { hybrid_cost, .. } => hybrid_cost as int,
            _ => 0,
        };
        a matches Action::PowerCitiesFuel { gas: g, oil } && g == gas && oil == sat_sub(total, gas)
    } else {
        a is PassAuction
    }
}

proof fn lemma_numbers_multiset(a: Seq<PowerPlant>, b: Seq<PowerPlant>)
    requires
        a.to_multiset() == b.to_multiset(),
    ensures
        plant_numbers(a).to_multiset() == plant_numbers(b).to_multiset(),
    decreases a.len(),
{
    broadcast use vstd::seq_lib::group_to_multiset_ensures;
    broadcast use vstd::multiset::group_multiset_axioms;
    if a.len() == 0 {
        assert(b.len() == 0) by {
            assert(a.to_multiset().len() == 0);
        }
        assert(plant_numbers(a) =~= plant_numbers(b));
    } else {
        let x = a.last();
        let a2 = a.drop_last();
        assert(a =~= a2.push(x));
        assert(a.to_multiset() == a2.to_multiset().insert(x));
        assert(b.to_multiset().count(x) > 0);
        assert(b.contains(x));
        let i = choose|i: int| 0 <= i < b.len() && b[i] == x;
        let b2 = b.remove(i);
        assert(b2.to_multiset() == b.to_multiset().remove(x));
        assert(a2.to_multiset() =~= b2.to_multiset());
        lemma_numbers_multiset(a2, b2);
        let na = plant_numbers(a);
        let nb = plant_numbers(b);
        assert(na =~= plant_numbers(a2).push(x.number));
        assert(plant_numbers(b2) =~= nb.remove(i));
        assert(nb[i] == x.number);
        assert(nb.remove(i).to_multiset() == nb.to_multiset().remove(x.number));
        assert(nb.to_multiset().count(x.number) > 0) by {
            assert(nb.contains(x.number));
        }
        assert(na.to_multiset() =~= nb.to_multiset());
    }
}

/// The rack the firing masks range over is the player's plants reordered by
/// number, and its plant numbers are the plant numbers sorted ascending.
proof fn lemma_rack_numbers(plants: Seq<PowerPlant>)
    ensures
        rack_by_number(plants).to_multiset() == plants.to_multiset(),
        forall|i: int, j: int| 0 <= i < j < rack_by_number(plants).len() ==>
            (#[trigger] rack_by_number(plants)[i]).number <= (#[trigger] rack_by_number(plants)[j]).number,
        plant_numbers(rack_by_number(plants)) == sorted_numbers(plants),
{
    reveal(rack_by_number);
    let leq = plant_leq(false);
    crate::buying::lemma_plant_order(false);
    plants.lemma_sort_by_ensures(leq);
    let rack = plants.sort_by(leq);
    assert forall|i: int, j: int| 0 <= i < j < rack.len() implies (#[trigger] rack[i]).number <= (#[trigger] rack[j]).number by {
        assert(leq(rack[i], rack[j]));
    }
    let nr = plant_numbers(rack);
    let nleq = num_leq();
    assert(total_ordering(nleq));
    assert(sorted_by(nr, nleq)) by {
        assert forall|i: int, j: int| 0 <= i < j < nr.len() implies nleq(nr[i], nr[j]) by {
            assert(rack[i].number <= rack[j].number);
        }
    }
    lemma_numbers_multiset(rack, plants);
    plant_numbers(plants).lemma_sort_by_ensures(nleq);
    lemma_sorted_unique(nr, sorted_numbers(plants), nleq);
}

/// A power id fires the plants its mask picks out of the very rack the
/// firing masks are computed over: the actor's own plants reordered by
/// number, bit `i` standing for the `i`-th of them (only the first three count).
pub proof fn lemma_power_id_fires_number_rack(aid: int, state: &GameState, actor: PlayerId, a: Action)
    requires
        POWER_CITIES_BASE <= aid < DISCARD_RESOURCE_BASE,
        action_for_id(aid, state, actor, a),
        state.spec_player(actor) is Some,
    ensures
        ({
            let rack = rack_by_number(state.spec_player(actor).unwrap().plants@);
            &&& rack.to_multiset() == state.spec_player(actor).unwrap().plants@.to_multiset()
            &&& forall|i: int, j: int| 0 <= i < j < rack.len() ==> (#[trigger] rack[i]).number <= (#[trigger] rack[j]).number
            &&& a matches Action::PowerCities { plant_numbers: fired }
            &&& fired@ == masked_numbers(plant_numbers(rack), (aid - POWER_CITIES_BASE) as u8, 3)
        }),
{
    lemma_rack_numbers(state.spec_player(actor).unwrap().plants@);
}

fn plant_at(market: &crate::market::PlantMarket, slot: usize) -> (r: Option<u8>)
    ensures
        ({
            let all = market.actual@ + market.future@;
            r == if slot < all.len() { Some(all[slot as int].number) } else { None::<u8> }
        }),
{
    if slot < market.actual.len() {
        Some(market.actual[slot].number)
    } else if slot - market.actual.len() < market.future.len() {
        Some(market.future[slot - market.actual.len()].number)
    } else {
        None
    }
}

/// Decodes action id `action_id` into the move it stands for.
pub fn action_id_to_action(action_id: u16, state: &GameState, actor_id: PlayerId) -> (a: Action)
    requires
        state.phase matches Phase::Auction { active_bid: Some(bid), .. } ==> bid.amount < u32::MAX,
    ensures
        action_for_id(action_id as int, state, actor_id, a),
{
    let aid = action_id as usize;
    if aid == PASS_AUCTION_IDX {
        return Action::PassAuction;
    }
    if aid == DONE_BUYING_IDX {
        return Action::DoneBuying;
    }
    if aid == DONE_BUILDING_IDX {
        return Action::DoneBuilding;
    }
    if SELECT_PLANT_BASE <= aid && aid < PLACE_BID_BASE {
        return match plant_at(&state.market, aid - SELECT_PLANT_BASE) {
            Some(number) => Action::SelectPlant { plant_number: number },
            None => Action::PassAuction,
        };
    }
    if PLACE_BID_BASE <= aid && aid < DISCARD_PLANT_BASE {
        if let Phase::Auction { active_bid: Some(bid), .. } = &state.phase {
            return Action::PlaceBid { amount: bid.amount + 1 };
        }
        return Action::PassAuction;
    }
    if DISCARD_PLANT_BASE <= aid && aid < BUILD_CITY_BASE {
        let slot = aid - DISCARD_PLANT_BASE;
        if let Some(player) = state.player(actor_id) {
            let numbers = sorted_plant_numbers(&player.plants);
            if slot < numbers.len() {
                return Action::DiscardPlant { plant_number: numbers[slot] };
            }
        }
        return Action::PassAuction;
    }
    if BUILD_CITY_BASE <= aid && aid < BUY_RESOURCE_BASE {
        let ci = aid - BUILD_CITY_BASE;
        return Action::BuildCity { city_id: city_id(ci).to_string() };
    }
    if BUY_RESOURCE_BASE <= aid && aid < POWER_CITIES_BASE {
        return Action::BuyResources { resource: resource_of(aid - BUY_RESOURCE_BASE), amount: 1 };
    }
    if POWER_CITIES_BASE <= aid && aid < DISCARD_RESOURCE_BASE {
        let bitmask = (aid - POWER_CITIES_BASE) as u8;
        let mut plant_numbers: Vec<u8> = Vec::new();
        if let Some(player) = state.player(actor_id) {
            let numbers = sorted_plant_numbers(&player.plants);
            let mut i: usize = 0;
            while i < 3
                invariant
                    i <= 3,
                    plant_numbers@ == masked_numbers(numbers@, bitmask, i as int),
                decreases 3 - i,
            {
                if i < numbers.len() && test_bit(bitmask, i) {
                    plant_numbers.push(numbers[i]);
                }
                i = i + 1;
            }
        }
        return Action::PowerCities { plant_numbers };
    }
    if DISCARD_RESOURCE_BASE <= aid && aid < POWER_FUEL_BASE {
        let gas = (aid - DISCARD_RESOURCE_BASE) as u8;
        let drop_total = match &state.phase {
            Phase::DiscardResource { drop_total, .. } => *drop_total,
            _ => 0,
        };
        let oil = if drop_total > gas { drop_total - gas } else { 0 };
        return Action::DiscardResource { gas, oil };
    }
    if POWER_FUEL_BASE <= aid && aid < N_ACTIONS {
        let gas = (aid - POWER_FUEL_BASE) as u8;
        let hybrid_cost = match &state.phase {
            Phase::PowerCitiesFuel { hybrid_cost, .. } => *hybrid_cost,
            _ => 0,
        };
        let oil = if hybrid_cost > gas { hybrid_cost - gas } else { 0 };
        return Action::PowerCitiesFuel { gas, oil };
    }
    Action::PassAuction
}

} // verus!
