//! The resource market (price tables, purchase prices) and the plant market.

use vstd::prelude::*;

use crate::types::{PowerPlant, Resource};

verus! {

/// Highest per-unit price any slot of any resource table carries.
pub const MAX_UNIT_PRICE: u32 = 9;

/// Number of slots in the market track of `resource`.
pub open spec fn slot_count(resource: Resource) -> nat {
    match resource {
        Resource::Coal => 27,
        Resource::Oil => 24,
        Resource::Gas => 24,
        Resource::Uranium => 12,
    }
}

/// Price of the unit sitting in slot `i` (slot 0 is the dearest). Slots fill
/// from 0 upward, so with `count` units on the track the cheapest one sits in
/// slot `count - 1`. Coal, oil and gas come in groups of three per price
/// level; uranium drops by one per slot below its top price of 9.
pub open spec fn slot_price(resource: Resource, slot: int) -> nat {
    let i = if slot < 0 { 0 } else { slot };
    let p: int = match resource {
        Resource::Coal => 9 - i / 3,
        Resource::Oil => 8 - i / 3,
        Resource::Gas => 8 - i / 3,
        Resource::Uranium => if 12 - i > 9 { 9 } else { 12 - i },
    };
    if p < 1 { 1 } else { p as nat }
}

/// Cost of the `amount` cheapest units of a track holding `count` units:
/// the units in slots `count - 1`, `count - 2`, ..., `count - amount`.
pub open spec fn cheapest_cost(resource: Resource, count: int, amount: nat) -> nat
    decreases amount,
{
    if amount == 0 {
        0
    } else {
        slot_price(resource, count - 1) + cheapest_cost(resource, count - 1, (amount - 1) as nat)
    }
}

/// The shared resource market: how many units of each resource are on sale.
#[derive(Clone, Copy, Debug, PartialEq, Eq, Structural)]
pub struct ResourceMarket {
    pub coal: u8,
    pub oil: u8,
    pub gas: u8,
    pub uranium: u8,
}

pub proof fn lemma_slot_price_bounds(resource: Resource, i: int)
    ensures
        1 <= slot_price(resource, i) <= 9,
{
}

pub proof fn lemma_cheapest_cost_bound(resource: Resource, count: int, amount: nat)
    ensures
        cheapest_cost(resource, count, amount) <= 9 * amount,
        amount <= cheapest_cost(resource, count, amount),
    decreases amount,
{
    if amount > 0 {
        lemma_cheapest_cost_bound(resource, count - 1, (amount - 1) as nat);
    }
}

fn unit_price(resource: Resource, i: u8) -> (r: u32)
    ensures
        r == slot_price(resource, i as int),
{
    let p: i32 = match resource {
        Resource::Coal => 9 - (i / 3) as i32,
        Resource::Oil => 8 - (i / 3) as i32,
        Resource::Gas => 8 - (i / 3) as i32,
        Resource::Uranium => if 12 - (i as i32) > 9 { 9 } else { 12 - i as i32 },
    };
    if p < 1 { 1 } else { p as u32 }
}

impl ResourceMarket {
    pub open spec fn spec_available(self, resource: Resource) -> u8 {
        match resource {
            Resource::Coal => self.coal,
            Resource::Oil => self.oil,
            Resource::Gas => self.gas,
            Resource::Uranium => self.uranium,
        }
    }

    /// What buying `amount` units of `resource` costs, or `None` when fewer
    /// than `amount` units are on sale.
    pub open spec fn spec_price(self, resource: Resource, amount: int) -> Option<u32> {
        if 0 <= amount <= self.spec_available(resource) {
            Some(cheapest_cost(resource, self.spec_available(resource) as int, amount as nat) as u32)
        } else {
            None
        }
    }

    /// `self` with `n` units of `resource` removed.
    pub open spec fn spec_taken(self, resource: Resource, n: int) -> ResourceMarket {
        match resource {
            Resource::Coal => ResourceMarket { coal: (self.coal - n) as u8, ..self },
            Resource::Oil => ResourceMarket { oil: (self.oil - n) as u8, ..self },
            Resource::Gas => ResourceMarket { gas: (self.gas - n) as u8, ..self },
            Resource::Uranium => ResourceMarket { uranium: (self.uranium - n) as u8, ..self },
        }
    }

    /// The market at the start of a game.
    pub fn initial() -> (r: ResourceMarket)
        ensures
            r == (ResourceMarket { coal: 23, oil: 18, gas: 6, uranium: 2 }),
    {
        ResourceMarket { coal: 23, oil: 18, gas: 6, uranium: 2 }
    }

    /// Units of `resource` on sale.
    pub fn available(&self, resource: Resource) -> (r: u8)
        ensures
            r == self.spec_available(resource),
    {
        match resource {
            Resource::Coal => self.coal,
            Resource::Oil => self.oil,
            Resource::Gas => self.gas,
            Resource::Uranium => self.uranium,
        }
    }

    /// Price of the `amount` cheapest units of `resource`, or `None` when the
    /// market holds fewer than `amount` units.
    pub fn price(&self, resource: Resource, amount: u8) -> (r: Option<u32>)
        ensures
            r == self.spec_price(resource, amount as int),
            r is Some ==> r->0 <= 9 * amount,
    {
        let count = self.available(resource);
        if amount > count {
            return None;
        }
        let mut total: u32 = 0;
        let mut k: u8 = 0;
        while k < amount
            invariant
                k <= amount <= count,
                count == self.spec_available(resource),
                total + cheapest_cost(resource, count - k, (amount - k) as nat)
                    == cheapest_cost(resource, count as int, amount as nat),
                total <= 9 * k,
            decreases amount - k,
        {
            proof {
                lemma_slot_price_bounds(resource, count - 1 - k);
            }
            total = total + unit_price(resource, count - 1 - k);
            k = k + 1;
        }
        proof {
            lemma_cheapest_cost_bound(resource, count as int, amount as nat);
        }
        Some(total)
    }

    /// Removes `n` units of `resource` from sale.
    pub fn take(&mut self, resource: Resource, n: u8)
        requires
            n <= old(self).spec_available(resource),
        ensures
            *final(self) == old(self).spec_taken(resource, n as int),
    {
        match resource {
            Resource::Coal => self.coal = self.coal - n,
            Resource::Oil => self.oil = self.oil - n,
            Resource::Gas => self.gas = self.gas - n,
            Resource::Uranium => self.uranium = self.uranium - n,
        }
    }
}

/// Per-round restock of (coal, oil, gas, uranium) for a game in `step` with
/// `n` players.
pub open spec fn spec_replenish_rates(step: u8, n: usize) -> (u8, u8, u8, u8) {
    if step == 1 {
        if n == 2 { (3, 2, 1, 1) }
        else if n == 3 { (4, 2, 1, 1) }
        else if n == 4 { (5, 3, 2, 1) }
        else if n == 5 { (5, 4, 3, 2) }
        else { (7, 5, 3, 2) }
    } else if step == 2 {
        if n == 2 { (4, 2, 1, 1) }
        else if n == 3 { (5, 3, 2, 1) }
        else if n == 4 { (6, 4, 3, 2) }
        else if n == 5 { (7, 5, 3, 3) }
        else { (9, 6, 5, 3) }
    } else {
        if n == 2 { (3, 4, 3, 1) }
        else if n == 3 { (3, 4, 3, 1) }
        else if n == 4 { (4, 5, 4, 2) }
        else if n == 5 { (5, 6, 5, 3) }
        else { (7, 7, 6, 3) }
    }
}

/// The restock table, read by step and player count.
pub fn replenish_rates(step: u8, n: usize) -> (r: (u8, u8, u8, u8))
    ensures
        r == spec_replenish_rates(step, n),
{
    match step {
        1 => match n {
            2 => (3, 2, 1, 1),
            3 => (4, 2, 1, 1),
            4 => (5, 3, 2, 1),
            5 => (5, 4, 3, 2),
            _ => (7, 5, 3, 2),
        },
        2 => match n {
            2 => (4, 2, 1, 1),
            3 => (5, 3, 2, 1),
            4 => (6, 4, 3, 2),
            5 => (7, 5, 3, 3),
            _ => (9, 6, 5, 3),
        },
        _ => match n {
            2 => (3, 4, 3, 1),
            3 => (3, 4, 3, 1),
            4 => (4, 5, 4, 2),
            5 => (5, 6, 5, 3),
            _ => (7, 7, 6, 3),
        },
    }
}

/// The power plant market: plants on sale now and the next ones up.
#[derive(Clone, Debug)]
pub struct PlantMarket {
    pub actual: Vec<PowerPlant>,
    pub future: Vec<PowerPlant>,
    /// In step 3 all six plants are on sale and `future` is empty.
    pub in_step3: bool,
    /// The plant carrying the discount token, which opens at 1 elektro.
    pub discount_token: Option<u8>,
}

/// The lowest opening bid for plant `plant_number`: its number, or 1 for the
/// plant carrying the discount token.
pub open spec fn spec_effective_min_bid(market: PlantMarket, plant_number: u8) -> u32 {
    if market.discount_token == Some(plant_number) { 1 } else { plant_number as u32 }
}

pub fn effective_min_bid(market: &PlantMarket, plant_number: u8) -> (r: u32)
    ensures
        r == spec_effective_min_bid(*market, plant_number),
{
    match market.discount_token {
        Some(n) if n == plant_number => 1,
        _ => plant_number as u32,
    }
}

} // verus!
