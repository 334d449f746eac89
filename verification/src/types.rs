//! Core game vocabulary: plants, resources, player storage.

use vstd::prelude::*;

verus! {

/// A player's identity (the 128 bits of the player's uuid).
pub type PlayerId = u128;

/// The fuel a power plant burns.
#[derive(Clone, Copy, Debug, PartialEq, Eq, Structural)]
pub enum PlantKind {
    Coal,
    Oil,
    GasOrOil,
    Gas,
    Uranium,
    Wind,
}

/// A tradeable resource of the resource market.
#[derive(Clone, Copy, Debug, PartialEq, Eq, Structural)]
pub enum Resource {
    Coal,
    Oil,
    Gas,
    Uranium,
}

/// A power plant card.
#[derive(Clone, Copy, Debug, PartialEq, Eq, Structural)]
pub struct PowerPlant {
    /// The card number (also its opening price).
    pub number: u8,
    pub kind: PlantKind,
    /// Units of fuel burnt per firing.
    pub cost: u8,
    /// Cities powered per firing.
    pub cities: u8,
}

/// Fuel a player currently holds.
#[derive(Clone, Copy, Debug, PartialEq, Eq, Structural)]
pub struct PlayerResources {
    pub coal: u8,
    pub oil: u8,
    pub gas: u8,
    pub uranium: u8,
}

/// The seat colours.
#[derive(Clone, Copy, Debug, PartialEq, Eq, Structural)]
pub enum PlayerColor {
    Red,
    Blue,
    Green,
    Yellow,
    Purple,
    White,
    Black,
}

impl PlantKind {
    /// True for every kind but wind.
    pub open spec fn spec_needs_resources(self) -> bool {
        self != PlantKind::Wind
    }

    /// Whether a plant of this kind burns fuel at all.
    pub fn needs_resources(self) -> (r: bool)
        ensures
            r == self.spec_needs_resources(),
    {
        !matches!(self, PlantKind::Wind)
    }

    /// Whether this kind may burn `resource` (a hybrid burns gas or oil).
    pub open spec fn burns(self, resource: Resource) -> bool {
        match self {
            PlantKind::Coal => resource == Resource::Coal,
            PlantKind::Oil => resource == Resource::Oil,
            PlantKind::Gas => resource == Resource::Gas,
            PlantKind::Uranium => resource == Resource::Uranium,
            PlantKind::GasOrOil => resource == Resource::Gas || resource == Resource::Oil,
            PlantKind::Wind => false,
        }
    }

    /// The resources a plant of this kind burns, in preference order
    /// (a hybrid lists gas before oil).
    pub open spec fn spec_resources(self) -> Seq<Resource> {
        match self {
            PlantKind::Coal => seq![Resource::Coal],
            PlantKind::Oil => seq![Resource::Oil],
            PlantKind::Gas => seq![Resource::Gas],
            PlantKind::Uranium => seq![Resource::Uranium],
            PlantKind::GasOrOil => seq![Resource::Gas, Resource::Oil],
            PlantKind::Wind => seq![],
        }
    }

    pub fn resources(self) -> (r: Vec<Resource>)
        ensures
            r@ == self.spec_resources(),
    {
        match self {
            PlantKind::Coal => vec![Resource::Coal],
            PlantKind::Oil => vec![Resource::Oil],
            PlantKind::Gas => vec![Resource::Gas],
            PlantKind::Uranium => vec![Resource::Uranium],
            PlantKind::GasOrOil => vec![Resource::Gas, Resource::Oil],
            PlantKind::Wind => vec![],
        }
    }
}

impl PlayerResources {
    pub open spec fn spec_get(self, resource: Resource) -> u8 {
        match resource {
            Resource::Coal => self.coal,
            Resource::Oil => self.oil,
            Resource::Gas => self.gas,
            Resource::Uranium => self.uranium,
        }
    }

    /// Units of `resource` held.
    pub fn get(&self, resource: Resource) -> (r: u8)
        ensures
            r == self.spec_get(resource),
    {
        match resource {
            Resource::Coal => self.coal,
            Resource::Oil => self.oil,
            Resource::Gas => self.gas,
            Resource::Uranium => self.uranium,
        }
    }

    /// `self` with `n` more units of `resource` and the others unchanged.
    pub open spec fn spec_added(self, resource: Resource, n: int) -> PlayerResources {
        match resource {
            Resource::Coal => PlayerResources { coal: (self.coal + n) as u8, ..self },
            Resource::Oil => PlayerResources { oil: (self.oil + n) as u8, ..self },
            Resource::Gas => PlayerResources { gas: (self.gas + n) as u8, ..self },
            Resource::Uranium => PlayerResources { uranium: (self.uranium + n) as u8, ..self },
        }
    }

    /// Adds `n` units of `resource`.
    pub fn add(&mut self, resource: Resource, n: u8)
        requires
            old(self).spec_get(resource) + n <= u8::MAX,
        ensures
            *final(self) == old(self).spec_added(resource, n as int),
    {
        match resource {
            Resource::Coal => self.coal = self.coal + n,
            Resource::Oil => self.oil = self.oil + n,
            Resource::Gas => self.gas = self.gas + n,
            Resource::Uranium => self.uranium = self.uranium + n,
        }
    }
}


/// A seat at the table, as far as the decision logic reads it.
#[derive(Clone, Debug)]
pub struct Player {
    pub id: PlayerId,
    pub money: u32,
    pub plants: Vec<PowerPlant>,
    pub resources: PlayerResources,
}

/// Storage a rack gives for fuel of plants of `kind`: twice each such plant's cost.
pub open spec fn kind_storage(plants: Seq<PowerPlant>, kind: PlantKind) -> nat
    decreases plants.len(),
{
    if plants.len() == 0 {
        0
    } else {
        kind_storage(plants.drop_last(), kind) + if plants.last().kind == kind {
            (2 * plants.last().cost) as nat
        } else {
            0nat
        }
    }
}

/// Units of `held` that do not fit in `cap`.
pub open spec fn overflow(held: int, cap: int) -> int {
    if held > cap { held - cap } else { 0 }
}

/// Whether `res` fits the storage of `plants`: coal and uranium in their own
/// plants, oil and gas in their own plants with any excess held by hybrids.
pub open spec fn storage_fits(plants: Seq<PowerPlant>, res: PlayerResources) -> bool {
    &&& res.coal <= kind_storage(plants, PlantKind::Coal)
    &&& res.uranium <= kind_storage(plants, PlantKind::Uranium)
    &&& overflow(res.oil as int, kind_storage(plants, PlantKind::Oil) as int)
        + overflow(res.gas as int, kind_storage(plants, PlantKind::Gas) as int)
        <= kind_storage(plants, PlantKind::GasOrOil)
}

/// Whether a player owning `plants` and holding `res` can store `n` more
/// units of `resource`.
pub open spec fn spec_can_add(plants: Seq<PowerPlant>, res: PlayerResources, resource: Resource, n: int) -> bool {
    res.spec_get(resource) + n <= u8::MAX && storage_fits(plants, res.spec_added(resource, n))
}

proof fn lemma_kind_storage_bound(plants: Seq<PowerPlant>, kind: PlantKind)
    ensures
        kind_storage(plants, kind) <= 510 * plants.len(),
    decreases plants.len(),
{
    if plants.len() > 0 {
        lemma_kind_storage_bound(plants.drop_last(), kind);
    }
}

/// Total storage of `plants` for plants of `kind`.
pub fn storage_for(plants: &Vec<PowerPlant>, kind: PlantKind) -> (r: u128)
    ensures
        r == kind_storage(plants@, kind),
{
    let mut total: u128 = 0;
    let mut i: usize = 0;
    while i < plants.len()
        invariant
            i <= plants.len(),
            total == kind_storage(plants@.subrange(0, i as int), kind),
        decreases plants.len() - i,
    {
        proof {
            lemma_kind_storage_bound(plants@.subrange(0, i as int), kind);
            assert(plants@.subrange(0, i + 1).drop_last() == plants@.subrange(0, i as int));
        }
        if plants[i].kind == kind {
            total = total + 2 * plants[i].cost as u128;
        }
        i = i + 1;
    }
    proof {
        assert(plants@.subrange(0, plants.len() as int) == plants@);
    }
    total
}

fn over(held: u8, cap: u128) -> (r: u128)
    ensures
        r == overflow(held as int, cap as int),
{
    if held as u128 > cap { held as u128 - cap } else { 0 }
}

/// Whether `n` more units of `resource` fit a rack of `plants` that already
/// holds `held`.
pub fn can_store(plants: &Vec<PowerPlant>, held: PlayerResources, resource: Resource, n: u8) -> (r: bool)
    ensures
        r == spec_can_add(plants@, held, resource, n as int),
{
    if held.get(resource) as u16 + n as u16 > 255 {
        return false;
    }
    let mut after = held;
    after.add(resource, n);
    let coal_cap = storage_for(plants, PlantKind::Coal);
    let oil_cap = storage_for(plants, PlantKind::Oil);
    let gas_cap = storage_for(plants, PlantKind::Gas);
    let hybrid_cap = storage_for(plants, PlantKind::GasOrOil);
    let uranium_cap = storage_for(plants, PlantKind::Uranium);
    after.coal as u128 <= coal_cap && after.uranium as u128 <= uranium_cap
        && over(after.oil, oil_cap) + over(after.gas, gas_cap) <= hybrid_cap
}

impl Player {
    /// Whether `n` more units of `resource` fit the player's storage.
    pub fn can_add_resource(&self, resource: Resource, n: u8) -> (r: bool)
        ensures
            r == spec_can_add(self.plants@, self.resources, resource, n as int),
    {
        can_store(&self.plants, self.resources, resource, n)
    }
}

/// Fee for building in a city that already holds `owners` houses
/// (10, 15, 20 elektro for the first, second and third house).
pub open spec fn spec_connection_cost(owners: nat) -> nat {
    if owners == 0 { 10 } else if owners == 1 { 15 } else { 20 }
}

pub fn connection_cost(owners: usize) -> (r: u32)
    ensures
        r == spec_connection_cost(owners as nat),
{
    if owners == 0 { 10 } else if owners == 1 { 15 } else { 20 }
}

} // verus!
