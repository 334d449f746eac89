//! Text the clients and servers show or store for game values: card labels,
//! finishing places, colour names, and stored plant records.

use vstd::prelude::*;
use vstd::string::StringExecFns;

use crate::text::{lowercase, lowercased};
use crate::types::{PlantKind, PlayerColor, PowerPlant};

verus! {

pub open spec fn spec_kind_label(kind: PlantKind) -> Seq<char> {
    match kind {
        PlantKind::Coal => "COAL"@,
        PlantKind::Oil => "OIL"@,
        PlantKind::GasOrOil => "GAS/OIL"@,
        PlantKind::Gas => "GAS"@,
        PlantKind::Uranium => "URANIUM"@,
        PlantKind::Wind => "WIND"@,
    }
}

/// The fuel label printed on a plant card.
pub fn kind_label(kind: PlantKind) -> (r: &'static str)
    ensures
        r@ == spec_kind_label(kind),
{
    match kind {
        PlantKind::Coal => "COAL",
        PlantKind::Oil => "OIL",
        PlantKind::GasOrOil => "GAS/OIL",
        PlantKind::Gas => "GAS",
        PlantKind::Uranium => "URANIUM",
        PlantKind::Wind => "WIND",
    }
}

pub open spec fn spec_ordinal(n: int) -> Seq<char> {
    if n == 1 {
        "1ST"@
    } else if n == 2 {
        "2ND"@
    } else if n == 3 {
        "3RD"@
    } else if n == 4 {
        "4TH"@
    } else if n == 5 {
        "5TH"@
    } else {
        "6TH"@
    }
}

/// A finishing place as shown on the results screen; anything past fifth
/// shows as sixth.
pub fn ordinal(n: usize) -> (r: &'static str)
    ensures
        r@ == spec_ordinal(n as int),
{
    match n {
        1 => "1ST",
        2 => "2ND",
        3 => "3RD",
        4 => "4TH",
        5 => "5TH",
        _ => "6TH",
    }
}

/// The colour a lowercase name stands for, among the six a bot can take.
pub open spec fn color_named(name: Seq<char>) -> Option<PlayerColor> {
    if name == "red"@ {
        Some(PlayerColor::Red)
    } else if name == "blue"@ {
        Some(PlayerColor::Blue)
    } else if name == "green"@ {
        Some(PlayerColor::Green)
    } else if name == "yellow"@ {
        Some(PlayerColor::Yellow)
    } else if name == "purple"@ {
        Some(PlayerColor::Purple)
    } else if name == "white"@ {
        Some(PlayerColor::White)
    } else {
        None
    }
}

/// Parses a bot's colour argument, in any case.
pub fn parse_color(s: &str) -> (r: Result<PlayerColor, String>)
    ensures
        match color_named(lowercased(s@)) {
            Some(c) => r == Ok::<PlayerColor, String>(c),
            None => r matches Err(m) && m@ == "unknown color '"@ + lowercased(s@)
                + "'; expected: red, blue, green, yellow, purple, white"@,
        },
{
    let lower = lowercase(s);
    let l = lower.as_str();
    if crate::text::str_eq(l, "red") {
        Ok(PlayerColor::Red)
    } else if crate::text::str_eq(l, "blue") {
        Ok(PlayerColor::Blue)
    } else if crate::text::str_eq(l, "green") {
        Ok(PlayerColor::Green)
    } else if crate::text::str_eq(l, "yellow") {
        Ok(PlayerColor::Yellow)
    } else if crate::text::str_eq(l, "purple") {
        Ok(PlayerColor::Purple)
    } else if crate::text::str_eq(l, "white") {
        Ok(PlayerColor::White)
    } else {
        let mut msg = String::from_str("unknown color '");
        msg.append(l);
        msg.append("'; expected: red, blue, green, yellow, purple, white");
        Err(msg)
    }
}

/// Constant-time comparison: equal lengths and no differing byte, with
/// every byte pair inspected whatever the earlier ones were.
pub fn ct_eq(a: &[u8], b: &[u8]) -> (r: bool)
    ensures
        r == (a@ == b@),
{
    if a.len() != b.len() {
        return false;
    }
    let mut acc: u8 = 0;
    let mut i: usize = 0;
    while i < a.len()
        invariant
            a@.len() == b@.len(),
            i <= a@.len(),
            (acc == 0) == (forall|j: int| 0 <= j < i ==> a@[j] == b@[j]),
        decreases a@.len() - i,
    {
        let x = a[i];
        let y = b[i];
        let next = acc | (x ^ y);
        proof {
            assert((next == 0) == (acc == 0 && x == y)) by (bit_vector)
                requires
                    next == acc | (x ^ y),
            ;
        }
        acc = next;
        i = i + 1;
    }
    proof {
        if acc == 0 {
            assert(a@ =~= b@);
        }
    }
    acc == 0
}

/// One plant a seat still owned when its game ended, as stored.
#[derive(Debug)]
pub struct PlantRecord {
    pub number: i16,
    /// The fuel, as the lowercase variant name.
    pub kind: String,
    pub capacity: i16,
    pub resource_cost: i16,
}

pub open spec fn spec_kind_name(kind: PlantKind) -> Seq<char> {
    match kind {
        PlantKind::Coal => "coal"@,
        PlantKind::Oil => "oil"@,
        PlantKind::GasOrOil => "gasoroil"@,
        PlantKind::Gas => "gas"@,
        PlantKind::Uranium => "uranium"@,
        PlantKind::Wind => "wind"@,
    }
}

fn kind_name(kind: PlantKind) -> (r: &'static str)
    ensures
        r@ == spec_kind_name(kind),
{
    match kind {
        PlantKind::Coal => "coal",
        PlantKind::Oil => "oil",
        PlantKind::GasOrOil => "gasoroil",
        PlantKind::Gas => "gas",
        PlantKind::Uranium => "uranium",
        PlantKind::Wind => "wind",
    }
}

/// The stored record of `plant`.
pub fn plant_record(plant: &PowerPlant) -> (r: PlantRecord)
    ensures
        r.number == plant.number as i16,
        r.kind@ == spec_kind_name(plant.kind),
        r.capacity == plant.cities as i16,
        r.resource_cost == plant.cost as i16,
{
    PlantRecord {
        number: plant.number as i16,
        kind: kind_name(plant.kind).to_owned(),
        capacity: plant.cities as i16,
        resource_cost: plant.cost as i16,
    }
}

} // verus!
