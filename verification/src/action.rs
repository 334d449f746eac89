//! The moves a player can make.

use vstd::prelude::*;

use crate::map::id_views;
use crate::text::str_eq;
use crate::types::{PlayerColor, Resource};

verus! {

/// A move submitted to the game.
#[derive(Debug)]
pub enum Action {
    JoinGame { name: String, color: PlayerColor },
    StartGame,
    /// Nominate plant `plant_number` for auction.
    SelectPlant { plant_number: u8 },
    PlaceBid { amount: u32 },
    PassAuction,
    /// Drop an owned plant to make room for a fourth.
    DiscardPlant { plant_number: u8 },
    /// Drop gas and oil that no longer fit.
    DiscardResource { gas: u8, oil: u8 },
    /// Buy `amount` units of `resource`; the turn goes on.
    BuyResources { resource: Resource, amount: u8 },
    /// Buy a whole list of purchases and end the turn.
    BuyResourceBatch { purchases: Vec<(Resource, u8)> },
    DoneBuying,
    BuildCity { city_id: String },
    BuildCities { city_ids: Vec<String> },
    DoneBuilding,
    PowerCities { plant_numbers: Vec<u8> },
    /// Split of the hybrid firing cost between gas and oil.
    PowerCitiesFuel { gas: u8, oil: u8 },
}

/// Two moves are the same move: same variant, same numbers, same
/// characters in every id.
pub open spec fn same_action(a: Action, b: Action) -> bool {
    match (a, b) {
        (Action::JoinGame { name: n1, color: c1 }, Action::JoinGame { name: n2, color: c2 }) => n1@ == n2@ && c1 == c2,
        (Action::StartGame, Action::StartGame) => true,
        (Action::SelectPlant { plant_number: x }, Action::SelectPlant { plant_number: y }) => x == y,
        (Action::PlaceBid { amount: x }, Action::PlaceBid { amount: y }) => x == y,
        (Action::PassAuction, Action::PassAuction) => true,
        (Action::DiscardPlant { plant_number: x }, Action::DiscardPlant { plant_number: y }) => x == y,
        (Action::DiscardResource { gas: g1, oil: o1 }, Action::DiscardResource { gas: g2, oil: o2 }) => g1 == g2 && o1 == o2,
        (Action::BuyResources { resource: r1, amount: a1 }, Action::BuyResources { resource: r2, amount: a2 }) => r1 == r2 && a1 == a2,
        (Action::BuyResourceBatch { purchases: p1 }, Action::BuyResourceBatch { purchases: p2 }) => p1@ == p2@,
        (Action::DoneBuying, Action::DoneBuying) => true,
        (Action::BuildCity { city_id: c1 }, Action::BuildCity { city_id: c2 }) => c1@ == c2@,
        (Action::BuildCities { city_ids: c1 }, Action::BuildCities { city_ids: c2 }) => id_views(c1@) == id_views(c2@),
        (Action::DoneBuilding, Action::DoneBuilding) => true,
        (Action::PowerCities { plant_numbers: p1 }, Action::PowerCities { plant_numbers: p2 }) => p1@ == p2@,
        (Action::PowerCitiesFuel { gas: g1, oil: o1 }, Action::PowerCitiesFuel { gas: g2, oil: o2 }) => g1 == g2 && o1 == o2,
        _ => false,
    }
}

/// Two move sequences are the same sequence.
pub open spec fn same_actions(a: Seq<Action>, b: Seq<Action>) -> bool {
    a.len() == b.len() && forall|i: int| 0 <= i < a.len() ==> same_action(#[trigger] a[i], b[i])
}

fn same_strings(a: &Vec<String>, b: &Vec<String>) -> (r: bool)
    ensures
        r == (id_views(a@) == id_views(b@)),
{
    if a.len() != b.len() {
        proof {
            assert(id_views(a@).len() != id_views(b@).len());
        }
        return false;
    }
    let mut i: usize = 0;
    while i < a.len()
        invariant
            i <= a.len(),
            a.len() == b.len(),
            forall|j: int| 0 <= j < i ==> a@[j]@ == b@[j]@,
        decreases a.len() - i,
    {
        if !str_eq(a[i].as_str(), b[i].as_str()) {
            proof {
                assert(id_views(a@)[i as int] != id_views(b@)[i as int]);
            }
            return false;
        }
        i = i + 1;
    }
    assert(id_views(a@) =~= id_views(b@));
    true
}

fn same_u8s(a: &Vec<u8>, b: &Vec<u8>) -> (r: bool)
    ensures
        r == (a@ == b@),
{
    if a.len() != b.len() {
        return false;
    }
    let mut i: usize = 0;
    while i < a.len()
        invariant
            i <= a.len(),
            a.len() == b.len(),
            forall|j: int| 0 <= j < i ==> a@[j] == b@[j],
        decreases a.len() - i,
    {
        if a[i] != b[i] {
            return false;
        }
        i = i + 1;
    }
    assert(a@ =~= b@);
    true
}

fn same_purchases(a: &Vec<(Resource, u8)>, b: &Vec<(Resource, u8)>) -> (r: bool)
    ensures
        r == (a@ == b@),
{
    if a.len() != b.len() {
        return false;
    }
    let mut i: usize = 0;
    while i < a.len()
        invariant
            i <= a.len(),
            a.len() == b.len(),
            forall|j: int| 0 <= j < i ==> a@[j] == b@[j],
        decreases a.len() - i,
    {
        if a[i].0 != b[i].0 || a[i].1 != b[i].1 {
            return false;
        }
        i = i + 1;
    }
    assert(a@ =~= b@);
    true
}

/// Whether `a` and `b` are the same move.
pub fn action_eq(a: &Action, b: &Action) -> (r: bool)
    ensures
        r == same_action(*a, *b),
{
    match (a, b) {
        (Action::JoinGame { name: n1, color: c1 }, Action::JoinGame { name: n2, color: c2 }) =>
            str_eq(n1.as_str(), n2.as_str()) && *c1 == *c2,
        (Action::StartGame, Action::StartGame) => true,
        (Action::SelectPlant { plant_number: x }, Action::SelectPlant { plant_number: y }) => *x == *y,
        (Action::PlaceBid { amount: x }, Action::PlaceBid { amount: y }) => *x == *y,
        (Action::PassAuction, Action::PassAuction) => true,
        (Action::DiscardPlant { plant_number: x }, Action::DiscardPlant { plant_number: y }) => *x == *y,
        (Action::DiscardResource { gas: g1, oil: o1 }, Action::DiscardResource { gas: g2, oil: o2 }) =>
            *g1 == *g2 && *o1 == *o2,
        (Action::BuyResources { resource: r1, amount: a1 }, Action::BuyResources { resource: r2, amount: a2 }) =>
            *r1 == *r2 && *a1 == *a2,
        (Action::BuyResourceBatch { purchases: p1 }, Action::BuyResourceBatch { purchases: p2 }) =>
            same_purchases(p1, p2),
        (Action::DoneBuying, Action::DoneBuying) => true,
        (Action::BuildCity { city_id: c1 }, Action::BuildCity { city_id: c2 }) =>
            str_eq(c1.as_str(), c2.as_str()),
        (Action::BuildCities { city_ids: c1 }, Action::BuildCities { city_ids: c2 }) => same_strings(c1, c2),
        (Action::DoneBuilding, Action::DoneBuilding) => true,
        (Action::PowerCities { plant_numbers: p1 }, Action::PowerCities { plant_numbers: p2 }) => same_u8s(p1, p2),
        (Action::PowerCitiesFuel { gas: g1, oil: o1 }, Action::PowerCitiesFuel { gas: g2, oil: o2 }) =>
            *g1 == *g2 && *o1 == *o2,
        _ => false,
    }
}

/// Whether `a` and `b` are the same sequence of moves.
pub fn actions_eq(a: &Vec<Action>, b: &Vec<Action>) -> (r: bool)
    ensures
        r == same_actions(a@, b@),
{
    if a.len() != b.len() {
        return false;
    }
    let mut i: usize = 0;
    while i < a.len()
        invariant
            i <= a.len(),
            a.len() == b.len(),
            forall|j: int| 0 <= j < i ==> same_action(#[trigger] a@[j], b@[j]),
        decreases a.len() - i,
    {
        if !action_eq(&a[i], &b[i]) {
            return false;
        }
        i = i + 1;
    }
    true
}

} // verus!
