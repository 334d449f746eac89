//! The heuristic's choices in the phases that offer no strategic choice:
//! which plant to drop for a fourth, which fuel to drop when storage
//! shrinks, and how to split a hybrid firing between gas and oil.

use vstd::prelude::*;

use crate::action::{same_action, Action};
use crate::encoding::{named_demand, named_fuel};
use crate::features::{plant_score, spec_plant_score};
use crate::state::{GameState, Phase};
use crate::types::{PlantKind, PlayerId, PowerPlant};

verus! {

/// Plant `w` of `plants` is the first, among those not numbered `keep`, with
/// the lowest score.
pub open spec fn first_worst_but(plants: Seq<PowerPlant>, keep: u8, w: int) -> bool {
    &&& 0 <= w < plants.len()
    &&& plants[w].number != keep
    &&& forall|j: int| 0 <= j < plants.len() && plants[j].number != keep ==> spec_plant_score(plants[w]) <= spec_plant_score(#[trigger] plants[j])
    &&& forall|j: int| 0 <= j < w && plants[j].number != keep ==> spec_plant_score(plants[w]) < spec_plant_score(#[trigger] plants[j])
}

/// Drop the weakest plant other than the one just bought (the first of the
/// weakest); nothing when the actor has no seat or no other plant.
pub fn decide_discard(state: &GameState, actor: PlayerId, new_plant: &PowerPlant) -> (r: Option<Action>)
    ensures
        match state.spec_player(actor) {
            None => r is None,
            Some(p) => if exists|w: int| 0 <= w < p.plants@.len() && (#[trigger] p.plants@[w]).number != new_plant.number {
                exists|w: int| #[trigger] first_worst_but(p.plants@, new_plant.number, w)
                    && (r matches Some(a) && same_action(a, Action::DiscardPlant { plant_number: p.plants@[w].number }))
            } else {
                r is None
            },
        },
{
    let player = match state.player(actor) {
        Some(p) => p,
        None => return None,
    };
    let plants = &player.plants;
    let mut best: Option<usize> = None;
    let mut i: usize = 0;
    while i < plants.len()
        invariant
            i <= plants@.len(),
            match best {
                None => forall|j: int| 0 <= j < i ==> (#[trigger] plants@[j]).number == new_plant.number,
                Some(w) => {
                    &&& (w as int) < i
                    &&& plants@[w as int].number != new_plant.number
                    &&& forall|j: int| 0 <= j < i && plants@[j].number != new_plant.number
                        ==> spec_plant_score(plants@[w as int]) <= spec_plant_score(#[trigger] plants@[j])
                    &&& forall|j: int| 0 <= j < w && plants@[j].number != new_plant.number
                        ==> spec_plant_score(plants@[w as int]) < spec_plant_score(#[trigger] plants@[j])
                },
            },
        decreases plants@.len() - i,
    {
        if plants[i].number != new_plant.number {
            let take = match best {
                None => true,
                Some(w) => plant_score(&plants[i]) < plant_score(&plants[w]),
            };
            if take {
                best = Some(i);
            }
        }
        i = i + 1;
    }
    match best {
        None => None,
        Some(w) => {
            proof {
                assert(first_worst_but(plants@, new_plant.number, w as int));
            }
            Some(Action::DiscardPlant { plant_number: plants[w].number })
        },
    }
}

/// Drop gas first, then oil, `drop_total` units in all; nothing when the
/// actor has no seat.
pub fn decide_discard_resource(state: &GameState, actor: PlayerId, drop_total: u8) -> (r: Option<Action>)
    ensures
        match state.spec_player(actor) {
            None => r is None,
            Some(p) => {
                let gas = if drop_total < p.resources.gas { drop_total } else { p.resources.gas };
                r matches Some(a) && same_action(a, Action::DiscardResource { gas, oil: (drop_total - gas) as u8 })
            },
        },
{
    let player = match state.player(actor) {
        Some(p) => p,
        None => return None,
    };
    let gas = if drop_total < player.resources.gas { drop_total } else { player.resources.gas };
    Some(Action::DiscardResource { gas, oil: drop_total - gas })
}

/// Whether the fuel the pure plants being fired burn fits a `u8`.
pub open spec fn firing_fits(state: &GameState, actor: PlayerId) -> bool {
    match (state.phase, state.spec_player(actor)) {
        (Phase::PowerCitiesFuel { plant_numbers, .. }, Some(p)) => {
            &&& named_demand(p.plants@, plant_numbers@, PlantKind::Gas, plant_numbers@.len() as int) <= u8::MAX
            &&& named_demand(p.plants@, plant_numbers@, PlantKind::Oil, plant_numbers@.len() as int) <= u8::MAX
        },
        _ => true,
    }
}

/// The split of a hybrid firing of `hybrid_cost` units: with `prefer_oil`,
/// as much oil as is left after the pure oil plants fire, the rest gas;
/// otherwise all gas. Nothing outside the fuel phase or without a seat.
pub fn decide_power_cities_fuel(state: &GameState, actor: PlayerId, hybrid_cost: u8, prefer_oil: bool) -> (r: Option<Action>)
    requires
        firing_fits(state, actor),
    ensures
        match (state.phase, state.spec_player(actor)) {
            (Phase::PowerCitiesFuel { plant_numbers, .. }, Some(p)) => {
                let pure_oil = named_demand(p.plants@, plant_numbers@, PlantKind::Oil, plant_numbers@.len() as int);
                let oil_avail = if p.resources.oil > pure_oil { p.resources.oil - pure_oil } else { 0 };
                let oil = if prefer_oil { if hybrid_cost < oil_avail { hybrid_cost as int } else { oil_avail } } else { 0 };
                r matches Some(a) && same_action(a, Action::PowerCitiesFuel { gas: (hybrid_cost - oil) as u8, oil: oil as u8 })
            },
            _ => r is None,
        },
{
    let player = match state.player(actor) {
        Some(p) => p,
        None => {
            proof {
                match state.phase {
                    Phase::PowerCitiesFuel { .. } => {},
                    _ => {},
                }
            }
            return None;
        },
    };
    match &state.phase {
        Phase::PowerCitiesFuel { plant_numbers, .. } => {
            let pure_oil = named_fuel(&player.plants, plant_numbers, PlantKind::Oil);
            let oil = player.resources.oil as u128;
            let oil_avail: u128 = if oil > pure_oil { oil - pure_oil } else { 0 };
            let oil_used: u8 = if prefer_oil {
                if (hybrid_cost as u128) < oil_avail { hybrid_cost } else { oil_avail as u8 }
            } else {
                0
            };
            Some(Action::PowerCitiesFuel { gas: hybrid_cost - oil_used, oil: oil_used })
        },
        _ => None,
    }
}

} // verus!
