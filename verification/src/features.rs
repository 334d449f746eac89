//! Plant and market features used by the bots: plant ranking, capacity gain,
//! firing cost.

use vstd::prelude::*;

use crate::market::{cheapest_cost, lemma_cheapest_cost_bound, ResourceMarket};
use crate::types::{PlantKind, Player, PowerPlant, Resource};

verus! {

/// Ranking of an owned plant: more cities powered ranks higher; among equal
/// capacity, the cheaper to fire ranks higher.
pub open spec fn spec_plant_score(plant: PowerPlant) -> int {
    plant.cities * 100 - plant.cost
}

pub fn plant_score(plant: &PowerPlant) -> (r: i32)
    ensures
        r == spec_plant_score(*plant),
{
    plant.cities as i32 * 100 - plant.cost as i32
}

/// `w` is the first plant of `plants` with the lowest score.
pub open spec fn is_first_worst(plants: Seq<PowerPlant>, w: int) -> bool {
    &&& 0 <= w < plants.len()
    &&& forall|j: int| 0 <= j < plants.len() ==> spec_plant_score(plants[w]) <= spec_plant_score(#[trigger] plants[j])
    &&& forall|j: int| 0 <= j < w ==> spec_plant_score(plants[w]) < spec_plant_score(#[trigger] plants[j])
}

/// Index of the worst plant (lowest score, first one on a tie).
pub fn worst_plant_index(plants: &Vec<PowerPlant>) -> (w: usize)
    requires
        plants.len() > 0,
    ensures
        is_first_worst(plants@, w as int),
{
    let mut w: usize = 0;
    let mut i: usize = 1;
    while i < plants.len()
        invariant
            1 <= i <= plants.len(),
            w < i,
            forall|j: int| 0 <= j < i ==> spec_plant_score(plants@[w as int]) <= spec_plant_score(#[trigger] plants@[j]),
            forall|j: int| 0 <= j < w ==> spec_plant_score(plants@[w as int]) < spec_plant_score(#[trigger] plants@[j]),
        decreases plants.len() - i,
    {
        if plant_score(&plants[i]) < plant_score(&plants[w]) {
            w = i;
        }
        i = i + 1;
    }
    w
}

/// Net cities-powered capacity gained by acquiring `plant`: its cities while
/// the rack has room, else its cities minus those of the worst plant it would
/// replace.
pub open spec fn spec_capacity_bump(plant: PowerPlant, plants: Seq<PowerPlant>) -> int {
    if plants.len() < 3 {
        plant.cities as int
    } else {
        plant.cities - plants[choose|w: int| is_first_worst(plants, w)].cities
    }
}

pub proof fn lemma_first_worst_unique(plants: Seq<PowerPlant>, a: int, b: int)
    requires
        is_first_worst(plants, a),
        is_first_worst(plants, b),
    ensures
        a == b,
{
    if a < b {
        assert(spec_plant_score(plants[b]) < spec_plant_score(plants[a]));
    } else if b < a {
        assert(spec_plant_score(plants[a]) < spec_plant_score(plants[b]));
    }
}

pub fn capacity_bump(plant: &PowerPlant, player: &Player) -> (r: i32)
    ensures
        r == spec_capacity_bump(*plant, player.plants@),
{
    if player.plants.len() < 3 {
        return plant.cities as i32;
    }
    let w = worst_plant_index(&player.plants);
    proof {
        let c = choose|v: int| is_first_worst(player.plants@, v);
        lemma_first_worst_unique(player.plants@, c, w as int);
    }
    plant.cities as i32 - player.plants[w].cities as i32
}

/// The resources a firing is priced from, most preferred first: a hybrid
/// prices the one with more units on sale (gas on a tie).
pub open spec fn firing_resources(kind: PlantKind, market: ResourceMarket) -> Seq<Resource> {
    if kind == PlantKind::GasOrOil {
        if market.spec_available(Resource::Gas) >= market.spec_available(Resource::Oil) {
            seq![Resource::Gas, Resource::Oil]
        } else {
            seq![Resource::Oil, Resource::Gas]
        }
    } else {
        kind.spec_resources()
    }
}

/// Estimated cost of buying one firing of `plant` at current prices: the
/// price from the first preferred resource that can supply it all; if none
/// can, the available units of the preferred resource plus 9 per missing unit.
pub open spec fn spec_estimate_firing_cost(plant: PowerPlant, market: ResourceMarket) -> int {
    let rs = firing_resources(plant.kind, market);
    let amount = plant.cost as int;
    if !plant.kind.spec_needs_resources() {
        0
    } else if market.spec_price(rs[0], amount) is Some {
        market.spec_price(rs[0], amount).unwrap() as int
    } else if rs.len() > 1 && market.spec_price(rs[1], amount) is Some {
        market.spec_price(rs[1], amount).unwrap() as int
    } else {
        let avail = market.spec_available(rs[0]);
        cheapest_cost(rs[0], avail as int, avail as nat) + (plant.cost - avail) * 9
    }
}

pub fn estimate_firing_cost(plant: &PowerPlant, market: &ResourceMarket) -> (r: u32)
    ensures
        r == spec_estimate_firing_cost(*plant, *market),
{
    if !plant.kind.needs_resources() {
        return 0;
    }
    let amount = plant.cost;
    let resources: Vec<Resource> = match plant.kind {
        PlantKind::GasOrOil => {
            if market.available(Resource::Gas) >= market.available(Resource::Oil) {
                vec![Resource::Gas, Resource::Oil]
            } else {
                vec![Resource::Oil, Resource::Gas]
            }
        },
        _ => plant.kind.resources(),
    };
    assert(resources@ == firing_resources(plant.kind, *market));
    let mut i: usize = 0;
    while i < resources.len()
        invariant
            resources@ == firing_resources(plant.kind, *market),
            plant.kind.spec_needs_resources(),
            amount == plant.cost,
            1 <= resources.len() <= 2,
            i <= resources.len(),
            forall|j: int| 0 <= j < i ==> market.spec_price(#[trigger] resources@[j], amount as int) is None,
        decreases resources.len() - i,
    {
        if let Some(cost) = market.price(resources[i], amount) {
            assert(i == 0 || market.spec_price(resources@[0], amount as int) is None);
            return cost;
        }
        i = i + 1;
    }
    assert(market.spec_price(resources@[0], amount as int) is None);
    assert(resources.len() > 1 ==> market.spec_price(resources@[1], amount as int) is None);
    let resource = resources[0];
    let avail = market.available(resource);
    let avail_cost = match market.price(resource, avail) {
        Some(c) => c,
        None => 0,
    };
    proof {
        lemma_cheapest_cost_bound(resource, avail as int, avail as nat);
    }
    let shortfall = if amount > avail { (amount - avail) as u32 } else { 0 };
    avail_cost + shortfall * 9
}

} // verus!
