//! Macro actions: one complete phase plan per decision, from a small fixed
//! menu. Each macro expands to a short sequence of primitive moves.

use vstd::prelude::*;
use vstd::relations::{sorted_by, total_ordering};
use vstd::seq_lib::lemma_sorted_unique;

use crate::action::{action_eq, actions_eq, same_action, same_actions, Action};
use crate::encoding::{current_actor_id, find_plant, find_plant_index, lemma_swap_multiset, sorted_numbers, sorted_plant_numbers, spec_current_actor};
use crate::map::{id_views, GameMap};
use crate::state::{contains_id, owned_city_ids, ActiveBid, GameState, Phase};
use crate::text::{lemma_lex_lt_asymmetric, lemma_lex_lt_irreflexive, lemma_lex_lt_total, lemma_lex_lt_transitive, lex_lt, str_lt};
use crate::buying::{essential_plan, plan_essential_buys};
use crate::types::{connection_cost, spec_connection_cost, Player, PlayerId, PowerPlant, Resource};

verus! {

/// Auction (no standing bid): nominate market `actual` slot 0..=5.
pub const NOMINATE_BASE: u16 = 0;
pub const N_NOMINATE: u16 = 6;
/// Drop out of / decline the auction.
pub const AUCTION_PASS: u16 = 6;
/// Auction (standing bid): raise by one.
pub const AUCTION_RAISE: u16 = 7;
/// Build the `n` cheapest reachable cities, `n = id - BUILD_COUNT_BASE`.
pub const BUILD_COUNT_BASE: u16 = 8;
pub const N_BUILD_COUNT: u16 = 7;
/// Buy one firing's worth for the plants of a rack-slot bitmask.
pub const BUY_SUBSET_BASE: u16 = 15;
pub const N_BUY_SUBSETS: u16 = 8;
/// Discard the owned plant of a slot (by number).
pub const DISCARD_PLANT_BASE: u16 = 23;
pub const N_DISCARD_PLANT: u16 = 3;
pub const N_MACROS: usize = 26;

// ---------------------------------------------------------------------------
// Decision points
// ---------------------------------------------------------------------------

/// Phases that need a macro decision: auctions, buying, building and plant
/// discards. Bureaucracy, fuel splits and resource discards are resolved
/// without one.
pub open spec fn spec_is_macro_phase(phase: Phase) -> bool {
    phase is Auction || phase is BuyResources || phase is BuildCities || phase is DiscardPlant
}

pub fn is_macro_phase(phase: &Phase) -> (r: bool)
    ensures
        r == spec_is_macro_phase(*phase),
{
    matches!(phase, Phase::Auction { .. } | Phase::BuyResources { .. } | Phase::BuildCities { .. } | Phase::DiscardPlant { .. })
}

/// The actor who must make a macro decision now.
pub open spec fn spec_macro_current_actor(state: &GameState) -> Option<PlayerId> {
    if spec_is_macro_phase(state.phase) { spec_current_actor(state) } else { None }
}

pub fn macro_current_actor(state: &GameState) -> (r: Option<PlayerId>)
    ensures
        r == spec_macro_current_actor(state),
{
    if !is_macro_phase(&state.phase) {
        return None;
    }
    current_actor_id(state)
}

/// The actor owning the next macro decision.
pub fn next_actor(state: &GameState) -> (r: Option<PlayerId>)
    ensures
        r == spec_macro_current_actor(state),
{
    macro_current_actor(state)
}

// ---------------------------------------------------------------------------
// Auction and discard expansions
// ---------------------------------------------------------------------------

/// `r` is a single move `a`.
pub open spec fn is_single(r: Option<Vec<Action>>, a: Action) -> bool {
    r matches Some(v) && v@.len() == 1 && same_action(v@[0], a)
}

/// Auction macros: with a standing bid, raise by one or pass; when opening,
/// nominate the plant in market slot `id` or pass.
pub open spec fn auction_expansion_ok(state: &GameState, macro_id: u16, active_bid: Option<ActiveBid>, r: Option<Vec<Action>>) -> bool {
    match active_bid {
        Some(bid) => if macro_id == AUCTION_RAISE {
            is_single(r, Action::PlaceBid { amount: (bid.amount + 1) as u32 })
        } else if macro_id == AUCTION_PASS {
            is_single(r, Action::PassAuction)
        } else {
            r is None
        },
        None => if macro_id == AUCTION_PASS {
            is_single(r, Action::PassAuction)
        } else if NOMINATE_BASE <= macro_id < NOMINATE_BASE + N_NOMINATE && macro_id - NOMINATE_BASE < state.market.actual@.len() {
            is_single(r, Action::SelectPlant { plant_number: state.market.actual@[macro_id - NOMINATE_BASE].number })
        } else {
            r is None
        },
    }
}

fn expand_auction(state: &GameState, macro_id: u16, active_bid: &Option<ActiveBid>) -> (r: Option<Vec<Action>>)
    requires
        active_bid matches Some(bid) ==> bid.amount < u32::MAX,
    ensures
        auction_expansion_ok(state, macro_id, *active_bid, r),
{
    match active_bid {
        Some(bid) => {
            if macro_id == AUCTION_RAISE {
                Some(vec![Action::PlaceBid { amount: bid.amount + 1 }])
            } else if macro_id == AUCTION_PASS {
                Some(vec![Action::PassAuction])
            } else {
                None
            }
        },
        None => {
            if macro_id == AUCTION_PASS {
                Some(vec![Action::PassAuction])
            } else if NOMINATE_BASE <= macro_id && macro_id < NOMINATE_BASE + N_NOMINATE {
                let slot = (macro_id - NOMINATE_BASE) as usize;
                if slot < state.market.actual.len() {
                    Some(vec![Action::SelectPlant { plant_number: state.market.actual[slot].number }])
                } else {
                    None
                }
            } else {
                None
            }
        },
    }
}

/// Discard macros: drop the owned plant at that rank by number.
pub open spec fn discard_expansion_ok(state: &GameState, actor: PlayerId, macro_id: u16, r: Option<Vec<Action>>) -> bool {
    if DISCARD_PLANT_BASE <= macro_id < DISCARD_PLANT_BASE + N_DISCARD_PLANT {
        match state.spec_player(actor) {
            Some(p) => if macro_id - DISCARD_PLANT_BASE < p.plants@.len() {
                is_single(r, Action::DiscardPlant { plant_number: sorted_numbers(p.plants@)[macro_id - DISCARD_PLANT_BASE] })
            } else {
                r is None
            },
            None => r is None,
        }
    } else {
        r is None
    }
}

fn expand_discard(state: &GameState, actor: PlayerId, macro_id: u16) -> (r: Option<Vec<Action>>)
    ensures
        discard_expansion_ok(state, actor, macro_id, r),
{
    if !(DISCARD_PLANT_BASE <= macro_id && macro_id < DISCARD_PLANT_BASE + N_DISCARD_PLANT) {
        return None;
    }
    let slot = (macro_id - DISCARD_PLANT_BASE) as usize;
    let player = match state.player(actor) {
        Some(p) => p,
        None => return None,
    };
    let numbers = sorted_plant_numbers(&player.plants);
    if slot < numbers.len() {
        Some(vec![Action::DiscardPlant { plant_number: numbers[slot] }])
    } else {
        None
    }
}

// ---------------------------------------------------------------------------
// Build planning
// ---------------------------------------------------------------------------

/// A buildable city as (id, route cost + house fee).
pub type Offer = (Seq<char>, u32);

/// Cheaper first, ties by id.
pub open spec fn offer_leq() -> spec_fn(Offer, Offer) -> bool {
    |a: Offer, b: Offer| a.1 < b.1 || (a.1 == b.1 && (a.0 == b.0 || lex_lt(a.0, b.0)))
}

proof fn lemma_offer_order()
    ensures
        total_ordering(offer_leq()),
{
    let leq = offer_leq();
    assert forall|a: Offer| #[trigger] leq(a, a) by {}
    assert forall|a: Offer, b: Offer| #[trigger] leq(a, b) && #[trigger] leq(b, a) implies a == b by {
        lemma_lex_lt_asymmetric(a.0, b.0);
    }
    assert forall|a: Offer, b: Offer, c: Offer| #[trigger] leq(a, b) && #[trigger] leq(b, c) implies leq(a, c) by {
        if a.1 == b.1 && b.1 == c.1 && a.0 != b.0 && b.0 != c.0 {
            lemma_lex_lt_transitive(a.0, b.0, c.0);
        }
    }
    assert forall|a: Offer, b: Offer| #[trigger] leq(a, b) || #[trigger] leq(b, a) by {
        lemma_lex_lt_total(a.0, b.0);
    }
}

/// The owned network of `actor` as ids.
pub open spec fn owned_ids(state: &GameState, actor: PlayerId) -> Seq<Seq<char>> {
    id_views(owned_city_ids(state.map.cities@, actor))
}

/// `a + b`, held at `u32::MAX` when it would pass it.
pub open spec fn capped_sum(a: nat, b: nat) -> u32 {
    if a + b >= u32::MAX { u32::MAX } else { (a + b) as u32 }
}

/// The offer for city `i`, if `actor` may build there: in play, not yet
/// built by `actor`, a free house slot this step, and reachable.
pub open spec fn offer_for(state: &GameState, actor: PlayerId, i: int) -> Option<Offer> {
    let city = state.map.cities@[i];
    if state.spec_city_active(i) && !city.owners@.contains(actor) && city.owners@.len() < state.step {
        match state.map.spec_connection_cost(owned_ids(state, actor), city.id@) {
            Some(route) => Some((city.id@, capped_sum(route as nat, spec_connection_cost(city.owners@.len() as nat)))),
            None => None,
        }
    } else {
        None
    }
}

/// Offers for the first `k` cities of the board, in board order.
pub open spec fn offers(state: &GameState, actor: PlayerId, k: int) -> Seq<Offer>
    decreases k,
{
    if k <= 0 {
        seq![]
    } else {
        let rest = offers(state, actor, k - 1);
        match offer_for(state, actor, k - 1) {
            Some(o) => rest.push(o),
            None => rest,
        }
    }
}

/// Every city `actor` may build in, cheapest first (ties by id).
pub open spec fn spec_buildable(state: &GameState, actor: PlayerId) -> Seq<Offer> {
    offers(state, actor, state.map.cities@.len() as int).sort_by(offer_leq())
}

pub open spec fn offer_views(v: Seq<(String, u32)>) -> Seq<Offer> {
    v.map_values(|o: (String, u32)| (o.0@, o.1))
}

/// Buildable cities for `actor` with their total cost, cheapest first.
pub fn buildable(state: &GameState, actor: PlayerId) -> (r: Vec<(String, u32)>)
    requires
        state.wf(),
    ensures
        offer_views(r@) == spec_buildable(state, actor),
{
    let owned = state.player_cities(actor);
    let mut out: Vec<(String, u32)> = Vec::new();
    let mut i: usize = 0;
    while i < state.map.cities.len()
        invariant
            state.wf(),
            i <= state.map.cities.len(),
            id_views(owned@) == owned_ids(state, actor),
            offer_views(out@) == offers(state, actor, i as int),
        decreases state.map.cities.len() - i,
    {
        let city = &state.map.cities[i];
        let ghost before = out@;
        if state.is_city_active(i) && !contains_id(&city.owners, actor) && city.owners.len() < state.step as usize {
            if let Some(route) = state.map.connection_cost_to(owned.as_slice(), city.id.as_str()) {
                out.push((city.id.clone(), route.saturating_add(connection_cost(city.owners.len()))));
                proof {
                    assert(offer_views(out@) =~= offer_views(before).push((city.id@, capped_sum(route as nat, spec_connection_cost(city.owners@.len() as nat)))));
                }
            }
        }
        i = i + 1;
    }
    // insertion sort, cheapest first, ties by id
    let ghost unsorted = offer_views(out@);
    proof {
        lemma_offer_order();
    }
    let n = out.len();
    let mut k: usize = 0;
    while k < n
        invariant
            out.len() == n,
            k <= n,
            total_ordering(offer_leq()),
            offer_views(out@).to_multiset() == unsorted.to_multiset(),
            forall|a: int, b: int| 0 <= a < b < k ==> (#[trigger] offer_leq()(offer_views(out@)[a], offer_views(out@)[b])),
        decreases n - k,
    {
        let ghost before = out@;
        let e = out.remove(k);
        let ghost ev = (e.0@, e.1);
        proof {
            assert(offer_views(out@) =~= offer_views(before).remove(k as int));
        }
        let mut j: usize = k;
        while j > 0 && (e.1 < out[j - 1].1 || (e.1 == out[j - 1].1 && str_lt(e.0.as_str(), out[j - 1].0.as_str())))
            invariant
                out.len() == n - 1,
                j <= k < n,
                ev == (e.0@, e.1),
                offer_views(out@) == offer_views(before).remove(k as int),
                forall|t: int| j <= t < k ==> !offer_leq()(#[trigger] offer_views(out@)[t], ev) && offer_leq()(ev, offer_views(out@)[t]),
            decreases j,
        {
            proof {
                let x = offer_views(out@)[j - 1];
                lemma_lex_lt_asymmetric(ev.0, x.0);
                lemma_lex_lt_irreflexive(ev.0);
            }
            j = j - 1;
        }
        let ghost mid = out@;
        out.insert(j, e);
        proof {
            let leq = offer_leq();
            let ov = offer_views(out@);
            let mv = offer_views(mid);
            assert(ov =~= mv.insert(j as int, ev));
            if j > 0 {
                let x = mv[j - 1];
                lemma_lex_lt_total(ev.0, x.0);
                assert(leq(x, ev));
            }
            assert forall|a: int, b: int| 0 <= a < b < k + 1 implies #[trigger] leq(ov[a], ov[b]) by {
                if a < j && b < j {
                    assert(ov[a] == mv[a] && ov[b] == mv[b]);
                } else if a < j && b == j {
                    assert(leq(mv[a], mv[j - 1]));
                } else if a < j && b > j {
                    assert(ov[b] == mv[b - 1]);
                    assert(leq(mv[a], mv[b - 1]));
                } else if a == j {
                    assert(ov[b] == mv[b - 1]);
                } else {
                    assert(ov[a] == mv[a - 1] && ov[b] == mv[b - 1]);
                }
            }
            broadcast use vstd::seq_lib::to_multiset_insert;
            broadcast use vstd::seq_lib::to_multiset_remove;
            broadcast use vstd::multiset::group_multiset_axioms;
            assert(offer_views(before)[k as int] == ev);
            assert(offer_views(before).remove(k as int).to_multiset() == offer_views(before).to_multiset().remove(ev));
            assert(ov.to_multiset() == mv.to_multiset().insert(ev));
            assert(offer_views(before).to_multiset().contains(ev)) by {
                broadcast use vstd::seq_lib::to_multiset_contains;
                assert(offer_views(before).contains(ev));
            }
            assert(ov.to_multiset() =~= offer_views(before).to_multiset());
        }
        k = k + 1;
    }
    proof {
        let leq = offer_leq();
        lemma_offer_order();
        assert(sorted_by(offer_views(out@), leq));
        unsorted.lemma_sort_by_ensures(leq);
        lemma_sorted_unique(offer_views(out@), unsorted.sort_by(leq), leq);
    }
    out
}

/// House fee of the board city `id` (0 for an unknown id).
pub open spec fn slot_fee(map: &GameMap, id: Seq<char>) -> int {
    match map.id_pos(id) {
        Some(i) => spec_connection_cost(map.cities@[i].owners@.len() as nat) as int,
        None => 0,
    }
}

/// (network, chosen cities, cash) after walking the first `k` offers of
/// `sorted`: while fewer than `limit` are chosen, take each city whose route
/// from the growing network plus fee fits the cash left.
pub open spec fn greedy_walk(map: &GameMap, owned0: Seq<Seq<char>>, sorted: Seq<Offer>, budget: int, limit: int, k: int) -> (Seq<Seq<char>>, Seq<Seq<char>>, int)
    decreases k,
{
    if k <= 0 {
        (owned0, seq![], budget)
    } else {
        let prev = greedy_walk(map, owned0, sorted, budget, limit, k - 1);
        if prev.1.len() >= limit {
            prev
        } else {
            let id = sorted[k - 1].0;
            match map.spec_connection_cost(prev.0, id) {
                None => prev,
                Some(route) => {
                    let cost = route + slot_fee(map, id);
                    if cost > prev.2 { prev } else { (prev.0.push(id), prev.1.push(id), prev.2 - cost) }
                },
            }
        }
    }
}

proof fn lemma_greedy_walk_bounds(map: &GameMap, owned0: Seq<Seq<char>>, sorted: Seq<Offer>, budget: int, limit: int, k: int)
    requires
        budget >= 0,
    ensures
        greedy_walk(map, owned0, sorted, budget, limit, k).2 >= 0,
        greedy_walk(map, owned0, sorted, budget, limit, k).2 <= budget,
        greedy_walk(map, owned0, sorted, budget, limit, k).1.len() <= (if k < 0 { 0 } else { k }),
        greedy_walk(map, owned0, sorted, budget, limit, k).1.len() <= (if limit < 0 { 0 } else { limit }),
    decreases k,
{
    if k > 0 {
        lemma_greedy_walk_bounds(map, owned0, sorted, budget, limit, k - 1);
    }
}

fn fee_of(map: &GameMap, id: &str) -> (r: u32)
    requires
        map.wf(),
    ensures
        r == slot_fee(map, id@),
{
    match map.index_of(id) {
        Some(i) => connection_cost(map.cities[i].owners.len()),
        None => 0,
    }
}

/// Greedily takes the cheapest cities of `sorted` the actor can pay for, at
/// most `limit`, pricing each route against the network grown so far.
fn greedy_pick(state: &GameState, actor: PlayerId, sorted: &Vec<(String, u32)>, budget: u32, limit: usize) -> (r: Vec<String>)
    requires
        state.wf(),
    ensures
        id_views(r@) == greedy_walk(&state.map, owned_ids(state, actor), offer_views(sorted@), budget as int, limit as int, sorted@.len() as int).1,
{
    let mut owned = state.player_cities(actor);
    let ghost owned0 = id_views(owned@);
    let ghost sv = offer_views(sorted@);
    let mut chosen: Vec<String> = Vec::new();
    let mut cash = budget;
    let mut i: usize = 0;
    while i < sorted.len()
        invariant
            state.wf(),
            i <= sorted.len(),
            owned0 == owned_ids(state, actor),
            sv == offer_views(sorted@),
            ({
                let w = greedy_walk(&state.map, owned0, sv, budget as int, limit as int, i as int);
                &&& id_views(owned@) == w.0
                &&& id_views(chosen@) == w.1
                &&& cash as int == w.2
            }),
        decreases sorted.len() - i,
    {
        proof {
            lemma_greedy_walk_bounds(&state.map, owned0, sv, budget as int, limit as int, i as int);
        }
        if chosen.len() >= limit {
            i = i + 1;
            proof {
                assert(id_views(chosen@).len() == chosen@.len());
            }
            continue;
        }
        let id = &sorted[i].0;
        assert(sv[i as int].0 == id@);
        let route = match state.map.connection_cost_to(owned.as_slice(), id.as_str()) {
            Some(r) => r,
            None => {
                i = i + 1;
                continue;
            },
        };
        let cost: u64 = route as u64 + fee_of(&state.map, id.as_str()) as u64;
        if cost > cash as u64 {
            i = i + 1;
            continue;
        }
        let ghost o_before = owned@;
        let ghost c_before = chosen@;
        cash = cash - cost as u32;
        owned.push(id.clone());
        chosen.push(id.clone());
        proof {
            assert(id_views(owned@) =~= id_views(o_before).push(id@));
            assert(id_views(chosen@) =~= id_views(c_before).push(id@));
        }
        i = i + 1;
    }
    chosen
}

/// The ids `cheapest_cities` picks: the cheapest `n` cities `actor` can pay
/// for with all its money, never past the game-ending city count.
pub open spec fn spec_cheapest_cities(state: &GameState, actor: PlayerId, n: int) -> Seq<Seq<char>> {
    if n == 0 {
        seq![]
    } else {
        let money: int = match state.spec_player(actor) {
            Some(p) => p.money as int,
            None => 0,
        };
        let count = owned_city_ids(state.map.cities@, actor).len() as int;
        let cap = crate::buying::sat_sub(state.end_game_cities as int, count % 256);
        let sorted = spec_buildable(state, actor);
        greedy_walk(&state.map, owned_ids(state, actor), sorted, money, crate::buying::min(n, cap), sorted.len() as int).1
    }
}

fn cheapest_cities(state: &GameState, actor: PlayerId, n: usize) -> (r: Vec<String>)
    requires
        state.wf(),
    ensures
        id_views(r@) == spec_cheapest_cities(state, actor, n as int),
{
    if n == 0 {
        let r: Vec<String> = Vec::new();
        assert(id_views(r@) =~= seq![]);
        return r;
    }
    let money = match state.player(actor) {
        Some(p) => p.money,
        None => 0,
    };
    let count = state.player_city_count(actor);
    let count8 = (count % 256) as u8;
    let cap = if state.end_game_cities > count8 { (state.end_game_cities - count8) as usize } else { 0 };
    let sorted = buildable(state, actor);
    let limit = if n < cap { n } else { cap };
    proof {
        assert(offer_views(sorted@).len() == sorted@.len());
    }
    greedy_pick(state, actor, &sorted, money, limit)
}

/// `r` is the single move of building in the cities `ids`.
pub open spec fn is_build_of(r: Option<Vec<Action>>, ids: Seq<Seq<char>>) -> bool {
    match r {
        Some(v) => v@.len() == 1 && match v@[0] {
            Action::BuildCities { city_ids } => id_views(city_ids@) == ids,
            _ => false,
        },
        None => false,
    }
}

/// Build macros: build the `id - BUILD_COUNT_BASE` cheapest cities, or end
/// building when none can be had.
pub open spec fn build_expansion_ok(state: &GameState, actor: PlayerId, macro_id: u16, r: Option<Vec<Action>>) -> bool {
    if BUILD_COUNT_BASE <= macro_id < BUILD_COUNT_BASE + N_BUILD_COUNT {
        let ids = spec_cheapest_cities(state, actor, macro_id - BUILD_COUNT_BASE);
        if ids.len() == 0 {
            is_single(r, Action::DoneBuilding)
        } else {
            is_build_of(r, ids)
        }
    } else {
        r is None
    }
}

fn build_from_ids(ids: Vec<String>) -> (r: Option<Vec<Action>>)
    ensures
        ids@.len() == 0 ==> is_single(r, Action::DoneBuilding),
        ids@.len() > 0 ==> is_build_of(r, id_views(ids@)),
{
    if ids.len() == 0 {
        Some(vec![Action::DoneBuilding])
    } else {
        Some(vec![Action::BuildCities { city_ids: ids }])
    }
}

fn expand_build(state: &GameState, actor: PlayerId, macro_id: u16) -> (r: Option<Vec<Action>>)
    requires
        state.wf(),
    ensures
        build_expansion_ok(state, actor, macro_id, r),
{
    if BUILD_COUNT_BASE <= macro_id && macro_id < BUILD_COUNT_BASE + N_BUILD_COUNT {
        let n = (macro_id - BUILD_COUNT_BASE) as usize;
        let ids = cheapest_cities(state, actor, n);
        proof {
            assert(id_views(ids@).len() == ids@.len());
        }
        return build_from_ids(ids);
    }
    None
}

// ---------------------------------------------------------------------------
// Buy expansion
// ---------------------------------------------------------------------------

/// Buy macros: one batch that tops up the plants of the rack-slot bitmask
/// `id - BUY_SUBSET_BASE` for one firing, planned against the actor's cash.
/// The batch is there even when empty (it then ends the turn buying nothing).
pub open spec fn buy_expansion_ok(state: &GameState, actor: PlayerId, macro_id: u16, r: Option<Vec<Action>>) -> bool {
    if BUY_SUBSET_BASE <= macro_id < BUY_SUBSET_BASE + N_BUY_SUBSETS {
        match state.spec_player(actor) {
            Some(p) => match r {
                Some(v) => v@.len() == 1 && match v@[0] {
                    Action::BuyResourceBatch { purchases } => purchases@ == essential_plan(
                        state.resources,
                        p.plants@,
                        p.resources,
                        p.money as int,
                        (macro_id - BUY_SUBSET_BASE) as u8,
                    ).3,
                    _ => false,
                },
                None => false,
            },
            None => r is None,
        }
    } else {
        r is None
    }
}

fn copy_plants(plants: &Vec<PowerPlant>) -> (r: Vec<PowerPlant>)
    ensures
        r@ == plants@,
{
    let mut out: Vec<PowerPlant> = Vec::new();
    let mut i: usize = 0;
    while i < plants.len()
        invariant
            i <= plants.len(),
            out@ == plants@.subrange(0, i as int),
        decreases plants.len() - i,
    {
        out.push(plants[i]);
        i = i + 1;
        assert(out@ =~= plants@.subrange(0, i as int));
    }
    assert(out@ =~= plants@);
    out
}

fn expand_buy(state: &GameState, actor: PlayerId, macro_id: u16) -> (r: Option<Vec<Action>>)
    ensures
        buy_expansion_ok(state, actor, macro_id, r),
{
    if !(BUY_SUBSET_BASE <= macro_id && macro_id < BUY_SUBSET_BASE + N_BUY_SUBSETS) {
        return None;
    }
    let slots = (macro_id - BUY_SUBSET_BASE) as u8;
    let player = match state.player(actor) {
        Some(p) => p,
        None => return None,
    };
    let mut purchases: Vec<(Resource, u8)> = Vec::new();
    let mut sim_market = state.resources;
    let mut sim_player = Player {
        id: player.id,
        money: player.money,
        plants: copy_plants(&player.plants),
        resources: player.resources,
    };
    let mut budget = player.money;
    plan_essential_buys(&mut sim_market, &mut sim_player, &mut budget, &mut purchases, slots);
    proof {
        let o = essential_plan(state.resources, player.plants@, player.resources, player.money as int, slots);
        assert(purchases@ =~= o.3);
    }
    Some(vec![Action::BuyResourceBatch { purchases }])
}

// ---------------------------------------------------------------------------
// Expansion of any macro
// ---------------------------------------------------------------------------

/// A standing bid can still be raised by one.
pub open spec fn bid_can_rise(state: &GameState) -> bool {
    state.phase matches Phase::Auction { active_bid: Some(bid), .. } ==> bid.amount < u32::MAX
}

/// `r` is what macro `macro_id` expands to for `actor` in `state`: the
/// phase's own menu, and nothing outside the four macro phases.
pub open spec fn macro_expansion_ok(state: &GameState, actor: PlayerId, macro_id: u16, r: Option<Vec<Action>>) -> bool {
    match state.phase {
        Phase::Auction { active_bid, .. } => auction_expansion_ok(state, macro_id, active_bid, r),
        Phase::BuildCities { .. } => build_expansion_ok(state, actor, macro_id, r),
        Phase::BuyResources { .. } => buy_expansion_ok(state, actor, macro_id, r),
        Phase::DiscardPlant { .. } => discard_expansion_ok(state, actor, macro_id, r),
        _ => r is None,
    }
}

/// The primitive moves macro `macro_id` stands for now, or `None` where it
/// does not apply in this phase or for this actor.
pub fn expand_macro(state: &GameState, actor: PlayerId, macro_id: u16) -> (r: Option<Vec<Action>>)
    requires
        state.wf(),
        bid_can_rise(state),
    ensures
        macro_expansion_ok(state, actor, macro_id, r),
{
    match &state.phase {
        Phase::Auction { active_bid, .. } => expand_auction(state, macro_id, active_bid),
        Phase::BuildCities { .. } => expand_build(state, actor, macro_id),
        Phase::BuyResources { .. } => expand_buy(state, actor, macro_id),
        Phase::DiscardPlant { .. } => expand_discard(state, actor, macro_id),
        _ => None,
    }
}

proof fn lemma_same_action_equiv(a: Action, b: Action, c: Action)
    ensures
        same_action(a, a),
        same_action(a, b) ==> same_action(b, a),
        same_action(a, b) && same_action(b, c) ==> same_action(a, c),
{
}

proof fn lemma_same_actions_equiv(a: Seq<Action>, b: Seq<Action>, c: Seq<Action>)
    ensures
        same_actions(a, b) ==> same_actions(b, a),
        same_actions(a, b) && same_actions(b, c) ==> same_actions(a, c),
{
    if same_actions(a, b) {
        assert forall|i: int| 0 <= i < b.len() implies same_action(#[trigger] b[i], a[i]) by {
            lemma_same_action_equiv(a[i], b[i], a[i]);
        }
        if same_actions(b, c) {
            assert forall|i: int| 0 <= i < a.len() implies same_action(#[trigger] a[i], c[i]) by {
                lemma_same_action_equiv(a[i], b[i], c[i]);
            }
        }
    }
}

proof fn lemma_single_unique(r1: Option<Vec<Action>>, r2: Option<Vec<Action>>, a: Action)
    requires
        is_single(r1, a),
        is_single(r2, a),
    ensures
        same_actions(r1->Some_0@, r2->Some_0@),
{
    let u = r1->Some_0@;
    let v = r2->Some_0@;
    lemma_same_action_equiv(u[0], a, v[0]);
    lemma_same_action_equiv(v[0], a, u[0]);
    assert forall|i: int| 0 <= i < u.len() implies same_action(#[trigger] u[i], v[i]) by {}
}

/// A macro's expansion is one sequence of moves, up to `same_actions`; where
/// the macro does not apply, it has none.
proof fn lemma_expansion_unique(state: &GameState, actor: PlayerId, macro_id: u16, u: Option<Vec<Action>>, v: Option<Vec<Action>>)
    requires
        macro_expansion_ok(state, actor, macro_id, u),
        macro_expansion_ok(state, actor, macro_id, v),
    ensures
        u is Some <==> v is Some,
        u is Some ==> same_actions(u->Some_0@, v->Some_0@),
{
    match state.phase {
        Phase::Auction { active_bid, .. } => {
            match active_bid {
                Some(bid) => {
                    if macro_id == AUCTION_RAISE {
                        lemma_single_unique(u, v, Action::PlaceBid { amount: (bid.amount + 1) as u32 });
                    } else if macro_id == AUCTION_PASS {
                        lemma_single_unique(u, v, Action::PassAuction);
                    }
                },
                None => {
                    if macro_id == AUCTION_PASS {
                        lemma_single_unique(u, v, Action::PassAuction);
                    } else if NOMINATE_BASE <= macro_id < NOMINATE_BASE + N_NOMINATE && macro_id - NOMINATE_BASE < state.market.actual@.len() {
                        lemma_single_unique(u, v, Action::SelectPlant { plant_number: state.market.actual@[macro_id - NOMINATE_BASE].number });
                    }
                },
            }
        },
        Phase::BuildCities { .. } => {
            if BUILD_COUNT_BASE <= macro_id < BUILD_COUNT_BASE + N_BUILD_COUNT {
                let ids = spec_cheapest_cities(state, actor, macro_id - BUILD_COUNT_BASE);
                if ids.len() == 0 {
                    lemma_single_unique(u, v, Action::DoneBuilding);
                } else {
                    let x = u->Some_0@;
                    let y = v->Some_0@;
                    assert forall|i: int| 0 <= i < x.len() implies same_action(#[trigger] x[i], y[i]) by {}
                }
            }
        },
        Phase::BuyResources { .. } => {
            if u is Some {
                let x = u->Some_0@;
                let y = v->Some_0@;
                assert forall|i: int| 0 <= i < x.len() implies same_action(#[trigger] x[i], y[i]) by {}
            }
        },
        Phase::DiscardPlant { .. } => {
            if DISCARD_PLANT_BASE <= macro_id < DISCARD_PLANT_BASE + N_DISCARD_PLANT {
                match state.spec_player(actor) {
                    Some(p) => if macro_id - DISCARD_PLANT_BASE < p.plants@.len() {
                        lemma_single_unique(u, v, Action::DiscardPlant { plant_number: sorted_numbers(p.plants@)[macro_id - DISCARD_PLANT_BASE] });
                    },
                    None => {},
                }
            }
        },
        _ => {},
    }
}

// ---------------------------------------------------------------------------
// Legal macros
// ---------------------------------------------------------------------------

/// The macro that applies in every macro phase: passing in an auction,
/// building nothing, buying for no plant, discarding the lowest plant.
pub open spec fn fallback_macro(phase: Phase) -> u16 {
    match phase {
        Phase::Auction { .. } => AUCTION_PASS,
        Phase::BuildCities { .. } => BUILD_COUNT_BASE,
        Phase::BuyResources { .. } => BUY_SUBSET_BASE,
        _ => DISCARD_PLANT_BASE,
    }
}

/// The actor faces a macro decision that the fallback macro covers: a
/// macro phase, with a seat when buying, and a plant when discarding.
pub open spec fn fallback_applies(state: &GameState, actor: PlayerId) -> bool {
    &&& spec_is_macro_phase(state.phase)
    &&& state.phase is BuyResources ==> state.spec_player(actor) is Some
    &&& state.phase is DiscardPlant ==> (state.spec_player(actor) matches Some(p) && p.plants@.len() > 0)
}

/// Macro `macro_id` applies in this phase for this actor.
pub open spec fn expands(state: &GameState, actor: PlayerId, macro_id: u16) -> bool {
    exists|v: Vec<Action>| macro_expansion_ok(state, actor, macro_id, Some(v))
}

/// Macros `i` and `j` both apply and expand to the same moves.
pub open spec fn expansions_match(state: &GameState, actor: PlayerId, i: u16, j: u16) -> bool {
    exists|u: Vec<Action>, v: Vec<Action>|
        macro_expansion_ok(state, actor, i, Some(u)) && macro_expansion_ok(state, actor, j, Some(v)) && same_actions(u@, v@)
}

/// The legality mask: macro `id` is legal when it applies, the game accepts
/// its expansion (`accepted[id]`, the verdict of trying it on a copy of the
/// game), and no lower legal macro expands to the same moves.
pub open spec fn legal_macros_ok(state: &GameState, actor: PlayerId, accepted: Seq<bool>, legal: Seq<bool>) -> bool {
    &&& legal.len() == N_MACROS
    &&& forall|id: int| 0 <= id < N_MACROS ==> (#[trigger] legal[id] <==> {
        &&& expands(state, actor, id as u16)
        &&& id < accepted.len() && accepted[id]
        &&& forall|j: int| 0 <= j < id && #[trigger] legal[j] ==> !expansions_match(state, actor, j as u16, id as u16)
    })
}

/// The legal macros of `actor` now, given for each macro whether the game
/// accepts its expansion. Among macros with the same expansion only the
/// lowest id is legal.
pub fn legal_macros(state: &GameState, actor: PlayerId, accepted: &Vec<bool>) -> (legal: Vec<bool>)
    requires
        state.wf(),
        bid_can_rise(state),
    ensures
        legal_macros_ok(state, actor, accepted@, legal@),
        fallback_applies(state, actor) ==> expands(state, actor, fallback_macro(state.phase)),
        fallback_applies(state, actor) && accepted@.len() == N_MACROS && (forall|k: int| 0 <= k < N_MACROS ==> #[trigger] accepted@[k])
            ==> exists|k: int| 0 <= k < N_MACROS && #[trigger] legal@[k],
{
    let mut legal: Vec<bool> = Vec::new();
    let mut seen: Vec<Vec<Action>> = Vec::new();
    let ghost mut seen_ids: Seq<int> = seq![];
    let mut id: u16 = 0;
    while (id as usize) < N_MACROS
        invariant
            state.wf(),
            bid_can_rise(state),
            id as int <= N_MACROS,
            legal@.len() == id,
            seen@.len() == seen_ids.len(),
            forall|k: int| 0 <= k < seen_ids.len() ==> {
                &&& 0 <= #[trigger] seen_ids[k] < id
                &&& legal@[seen_ids[k]]
                &&& macro_expansion_ok(state, actor, seen_ids[k] as u16, Some(seen@[k]))
            },
            forall|j: int| 0 <= j < id && #[trigger] legal@[j] ==> seen_ids.contains(j),
            fallback_applies(state, actor) && fallback_macro(state.phase) < id ==> expands(state, actor, fallback_macro(state.phase)),
            forall|i: int| 0 <= i < id ==> (#[trigger] legal@[i] <==> {
                &&& expands(state, actor, i as u16)
                &&& i < accepted@.len() && accepted@[i]
                &&& forall|j: int| 0 <= j < i && #[trigger] legal@[j] ==> !expansions_match(state, actor, j as u16, i as u16)
            }),
        decreases N_MACROS - id as int,
    {
        let ghost legal_before = legal@;
        let e = expand_macro(state, actor, id);
        match e {
            None => {
                proof {
                    if fallback_applies(state, actor) && id == fallback_macro(state.phase) {
                        assert(!macro_expansion_ok(state, actor, id, None));
                    }
                    assert forall|v: Vec<Action>| !macro_expansion_ok(state, actor, id, Some(v)) by {
                        if macro_expansion_ok(state, actor, id, Some(v)) {
                            lemma_expansion_unique(state, actor, id, None, Some(v));
                        }
                    }
                }
                legal.push(false);
            },
            Some(ex) => {
                let mut dup = false;
                let mut k: usize = 0;
                while k < seen.len()
                    invariant
                        k <= seen.len(),
                        !dup ==> forall|t: int| 0 <= t < k ==> !same_actions((#[trigger] seen@[t])@, ex@),
                        dup ==> exists|t: int| 0 <= t < seen@.len() && same_actions((#[trigger] seen@[t])@, ex@),
                    ensures
                        !dup ==> forall|t: int| 0 <= t < seen@.len() ==> !same_actions((#[trigger] seen@[t])@, ex@),
                        dup ==> exists|t: int| 0 <= t < seen@.len() && same_actions((#[trigger] seen@[t])@, ex@),
                    decreases seen.len() - k,
                {
                    if actions_eq(&seen[k], &ex) {
                        dup = true;
                        break;
                    }
                    k = k + 1;
                }
                let ok = !dup && (id as usize) < accepted.len() && accepted[id as usize];
                let ghost legal0 = legal@;
                let ghost ids0 = seen_ids;
                proof {
                    if dup {
                        let t = choose|t: int| 0 <= t < seen@.len() && same_actions((#[trigger] seen@[t])@, ex@);
                        assert(expansions_match(state, actor, seen_ids[t] as u16, id));
                        assert(legal0[seen_ids[t]]);
                    } else {
                        assert forall|j: int| 0 <= j < id && #[trigger] legal0[j] implies !expansions_match(state, actor, j as u16, id) by {
                            let t = choose|t: int| 0 <= t < seen_ids.len() && seen_ids[t] == j;
                            assert(seen_ids[t] == j);
                            if expansions_match(state, actor, j as u16, id) {
                                let (u, v) = choose|u: Vec<Action>, v: Vec<Action>|
                                    macro_expansion_ok(state, actor, j as u16, Some(u)) && macro_expansion_ok(state, actor, id, Some(v)) && same_actions(u@, v@);
                                lemma_expansion_unique(state, actor, j as u16, Some(seen@[t]), Some(u));
                                lemma_expansion_unique(state, actor, id, Some(v), Some(ex));
                                lemma_same_actions_equiv(seen@[t]@, u@, v@);
                                lemma_same_actions_equiv(seen@[t]@, v@, ex@);
                                assert(!same_actions(seen@[t]@, ex@));
                            }
                        }
                    }
                    assert(expands(state, actor, id));
                }
                legal.push(ok);
                if ok {
                    proof {
                        seen_ids = seen_ids.push(id as int);
                    }
                    seen.push(ex);
                }
                proof {
                    assert forall|j: int| 0 <= j < id + 1 && #[trigger] legal@[j] implies seen_ids.contains(j) by {
                        if j < id {
                            assert(legal0[j]);
                            assert(ids0.contains(j));
                            let t = choose|t: int| 0 <= t < ids0.len() && ids0[t] == j;
                            assert(seen_ids[t] == j);
                        } else {
                            assert(seen_ids[seen_ids.len() - 1] == j);
                        }
                    }
                }
            },
        }
        proof {
            assert forall|i: int| 0 <= i < id + 1 implies (#[trigger] legal@[i] <==> {
                &&& expands(state, actor, i as u16)
                &&& i < accepted@.len() && accepted@[i]
                &&& forall|j: int| 0 <= j < i && #[trigger] legal@[j] ==> !expansions_match(state, actor, j as u16, i as u16)
            }) by {
                assert forall|j: int| 0 <= j < i implies legal@[j] == legal_before[j] by {}
                if i < id {
                    assert(legal@[i] == legal_before[i]);
                }
            }
        }
        id = id + 1;
    }
    proof {
        if fallback_applies(state, actor) {
            assert(fallback_macro(state.phase) < N_MACROS);
            if accepted@.len() == N_MACROS && (forall|k: int| 0 <= k < N_MACROS ==> #[trigger] accepted@[k]) {
                lemma_some_macro_legal(state, actor, accepted@, legal@, fallback_macro(state.phase) as int);
            }
        }
    }
    legal
}

// ---------------------------------------------------------------------------
// Teacher labels
// ---------------------------------------------------------------------------

/// Macro `macro_id` expands to exactly the single move `a`.
pub open spec fn expands_to(state: &GameState, actor: PlayerId, macro_id: u16, a: Action) -> bool {
    exists|v: Vec<Action>| macro_expansion_ok(state, actor, macro_id, Some(v)) && v@.len() == 1 && same_action(v@[0], a)
}

/// `r` is the lowest id in `lo..hi` whose macro expands to `a`, if any.
pub open spec fn first_expanding_ok(state: &GameState, actor: PlayerId, lo: u16, hi: u16, a: Action, r: Option<u16>) -> bool {
    match r {
        Some(id) => lo <= id < hi && expands_to(state, actor, id, a)
            && forall|j: u16| lo <= j < id ==> !#[trigger] expands_to(state, actor, j, a),
        None => forall|j: u16| lo <= j < hi ==> !#[trigger] expands_to(state, actor, j, a),
    }
}

fn first_expanding_to(state: &GameState, actor: PlayerId, lo: u16, hi: u16, a: &Action) -> (r: Option<u16>)
    requires
        state.wf(),
        bid_can_rise(state),
        lo <= hi,
    ensures
        first_expanding_ok(state, actor, lo, hi, *a, r),
{
    let mut id = lo;
    while id < hi
        invariant
            state.wf(),
            bid_can_rise(state),
            lo <= id <= hi,
            forall|j: u16| lo <= j < id ==> !#[trigger] expands_to(state, actor, j, *a),
        decreases hi - id,
    {
        let e = expand_macro(state, actor, id);
        match e {
            Some(v) => {
                if v.len() == 1 && action_eq(&v[0], a) {
                    return Some(id);
                }
                proof {
                    if expands_to(state, actor, id, *a) {
                        let w = choose|w: Vec<Action>| macro_expansion_ok(state, actor, id, Some(w)) && w@.len() == 1 && same_action(w@[0], *a);
                        lemma_expansion_unique(state, actor, id, Some(v), Some(w));
                        lemma_same_action_equiv(v@[0], w@[0], *a);
                    }
                }
            },
            None => {
                proof {
                    if expands_to(state, actor, id, *a) {
                        let w = choose|w: Vec<Action>| macro_expansion_ok(state, actor, id, Some(w)) && w@.len() == 1 && same_action(w@[0], *a);
                        lemma_expansion_unique(state, actor, id, None, Some(w));
                    }
                }
            },
        }
        id = id + 1;
    }
    None
}

/// First position of `n` in `s`.
pub open spec fn index_in(s: Seq<u8>, n: u8) -> Option<int> {
    if exists|i: int| 0 <= i < s.len() && s[i] == n {
        Some(choose|i: int| 0 <= i < s.len() && s[i] == n && forall|j: int| 0 <= j < i ==> s[j] != n)
    } else {
        None
    }
}

fn position_of(s: &Vec<u8>, n: u8) -> (r: Option<usize>)
    ensures
        match r {
            Some(i) => index_in(s@, n) == Some(i as int) && i < s.len(),
            None => index_in(s@, n) is None,
        },
{
    let mut i: usize = 0;
    while i < s.len()
        invariant
            i <= s.len(),
            forall|j: int| 0 <= j < i ==> s@[j] != n,
        decreases s.len() - i,
    {
        if s[i] == n {
            proof {
                let c = choose|c: int| 0 <= c < s@.len() && s@[c] == n && forall|j: int| 0 <= j < c ==> s@[j] != n;
                assert(c == i) by {
                    if c < i {
                    } else if c > i {
                        assert(s@[i as int] == n);
                    }
                }
            }
            return Some(i);
        }
        i = i + 1;
    }
    None
}

/// The macro id whose expansion is the move `heuristic` picked now, the
/// label a policy imitates: an auction move maps to raise, pass or the
/// nominated slot; a build or buy move to the lowest count or subset that
/// expands to exactly it; a plant discard to that plant's slot by number.
pub open spec fn teacher_ok(state: &GameState, actor: PlayerId, heuristic: Action, r: Option<u16>) -> bool {
    match state.phase {
        Phase::Auction { .. } => match heuristic {
            Action::PlaceBid { .. } => r == Some(AUCTION_RAISE),
            Action::PassAuction => r == Some(AUCTION_PASS),
            Action::SelectPlant { plant_number } => match find_plant(state.market.actual@, plant_number) {
                Some(i) => r == Some(NOMINATE_BASE.wrapping_add(i as u16)),
                None => r is None,
            },
            _ => r is None,
        },
        Phase::BuildCities { .. } => first_expanding_ok(state, actor, BUILD_COUNT_BASE, (BUILD_COUNT_BASE + N_BUILD_COUNT) as u16, heuristic, r),
        Phase::BuyResources { .. } => first_expanding_ok(state, actor, BUY_SUBSET_BASE, (BUY_SUBSET_BASE + N_BUY_SUBSETS) as u16, heuristic, r),
        Phase::DiscardPlant { .. } => match heuristic {
            Action::DiscardPlant { plant_number } => match state.spec_player(actor) {
                Some(p) => match index_in(sorted_numbers(p.plants@), plant_number) {
                    Some(i) => r == Some(DISCARD_PLANT_BASE.wrapping_add(i as u16)),
                    None => r is None,
                },
                None => r is None,
            },
            _ => r is None,
        },
        _ => r is None,
    }
}

/// The macro id that reproduces the move `heuristic` chose for `actor`, or
/// `None` where no macro does.
pub fn teacher_macro_id(state: &GameState, actor: PlayerId, heuristic: &Action) -> (r: Option<u16>)
    requires
        state.wf(),
        bid_can_rise(state),
    ensures
        teacher_ok(state, actor, *heuristic, r),
{
    match &state.phase {
        Phase::Auction { .. } => match heuristic {
            Action::PlaceBid { .. } => Some(AUCTION_RAISE),
            Action::PassAuction => Some(AUCTION_PASS),
            Action::SelectPlant { plant_number } => match find_plant_index(&state.market.actual, *plant_number) {
                Some(i) => Some(NOMINATE_BASE.wrapping_add(i as u16)),
                None => None,
            },
            _ => None,
        },
        Phase::BuildCities { .. } => first_expanding_to(state, actor, BUILD_COUNT_BASE, BUILD_COUNT_BASE + N_BUILD_COUNT, heuristic),
        Phase::BuyResources { .. } => first_expanding_to(state, actor, BUY_SUBSET_BASE, BUY_SUBSET_BASE + N_BUY_SUBSETS, heuristic),
        Phase::DiscardPlant { .. } => match heuristic {
            Action::DiscardPlant { plant_number } => match state.player(actor) {
                Some(p) => {
                    let numbers = sorted_plant_numbers(&p.plants);
                    match position_of(&numbers, *plant_number) {
                        Some(i) => Some(DISCARD_PLANT_BASE.wrapping_add(i as u16)),
                        None => None,
                    }
                },
                None => None,
            },
            _ => None,
        },
        _ => None,
    }
}

// ---------------------------------------------------------------------------
// Laws of the macro menu
// ---------------------------------------------------------------------------

/// No two legal macros expand to the same moves: the menu offers each plan
/// once, under its lowest id.
pub proof fn lemma_legal_expansions_distinct(
    state: &GameState,
    actor: PlayerId,
    accepted: Seq<bool>,
    legal: Seq<bool>,
    i: int,
    j: int,
)
    requires
        legal_macros_ok(state, actor, accepted, legal),
        0 <= i < j < N_MACROS,
        legal[i],
        legal[j],
    ensures
        !expansions_match(state, actor, i as u16, j as u16),
{
    assert(legal[j]);
}

/// Where the game accepts every expansion, a macro phase in which some
/// macro applies always offers at least one legal macro: the lowest that
/// applies.
pub proof fn lemma_some_macro_legal(state: &GameState, actor: PlayerId, accepted: Seq<bool>, legal: Seq<bool>, id: int)
    requires
        legal_macros_ok(state, actor, accepted, legal),
        accepted.len() == N_MACROS,
        forall|k: int| 0 <= k < N_MACROS ==> #[trigger] accepted[k],
        0 <= id < N_MACROS,
        expands(state, actor, id as u16),
    ensures
        exists|k: int| 0 <= k <= id && #[trigger] legal[k],
    decreases id,
{
    if !legal[id] {
        assert(accepted[id]);
        let j = choose|j: int| 0 <= j < id && #[trigger] legal[j] && expansions_match(state, actor, j as u16, id as u16);
        assert(legal[j]);
    }
}

/// The teacher's label survives deduplication: in the build and buy phases
/// it is the lowest id expanding to the heuristic's move, so it is legal
/// whenever the game accepts that move.
pub proof fn lemma_teacher_label_legal(
    state: &GameState,
    actor: PlayerId,
    heuristic: Action,
    accepted: Seq<bool>,
    legal: Seq<bool>,
    id: u16,
)
    requires
        state.phase is BuildCities || state.phase is BuyResources,
        teacher_ok(state, actor, heuristic, Some(id)),
        legal_macros_ok(state, actor, accepted, legal),
        (id as int) < accepted.len(),
        accepted[id as int],
    ensures
        legal[id as int],
{
    let lo = if state.phase is BuildCities { BUILD_COUNT_BASE } else { BUY_SUBSET_BASE };
    assert(lo <= id && id < N_MACROS);
    let w = choose|w: Vec<Action>| macro_expansion_ok(state, actor, id, Some(w)) && w@.len() == 1 && same_action(w@[0], heuristic);
    assert(expands(state, actor, id));
    assert forall|j: int| 0 <= j < id && #[trigger] legal[j] implies !expansions_match(state, actor, j as u16, id) by {
        if expansions_match(state, actor, j as u16, id) {
            let (u, v) = choose|u: Vec<Action>, v: Vec<Action>|
                macro_expansion_ok(state, actor, j as u16, Some(u)) && macro_expansion_ok(state, actor, id, Some(v)) && same_actions(u@, v@);
            lemma_expansion_unique(state, actor, id, Some(v), Some(w));
            lemma_same_actions_equiv(u@, v@, w@);
            assert(same_actions(u@, w@));
            lemma_same_action_equiv(u@[0], w@[0], heuristic);
            assert(expands_to(state, actor, j as u16, heuristic));
            if j < lo {
                // below the phase's range no macro applies
                assert(macro_expansion_ok(state, actor, j as u16, Some(u)));
                assert(false);
            } else {
                assert(!expands_to(state, actor, j as u16, heuristic));
            }
        }
    }
}

/// The teacher's label expands to exactly the heuristic's move, for every
/// move the menu can express: a nomination (with no bid standing) of a plant
/// among the first six on sale, a pass, a discard of one of the three lowest
/// plants, and any build or buy a count or subset reproduces.
pub proof fn lemma_teacher_round_trip(
    state: &GameState,
    actor: PlayerId,
    heuristic: Action,
    id: u16,
    r: Option<Vec<Action>>,
)
    requires
        teacher_ok(state, actor, heuristic, Some(id)),
        !(heuristic is PlaceBid),
        heuristic is SelectPlant ==> id < N_NOMINATE && state.market.actual@.len() <= u16::MAX
            && (state.phase matches Phase::Auction { active_bid: None, .. }),
        heuristic is DiscardPlant ==> DISCARD_PLANT_BASE <= id < N_MACROS
            && (state.spec_player(actor) matches Some(p) ==> p.plants@.len() <= u16::MAX),
        macro_expansion_ok(state, actor, id, r),
    ensures
        r matches Some(v) && v@.len() == 1 && same_action(v@[0], heuristic),
{
    match state.phase {
        Phase::Auction { active_bid, .. } => {
            match heuristic {
                Action::SelectPlant { plant_number } => {
                    lemma_find_plant_first(state.market.actual@, plant_number);
                    let i = find_plant(state.market.actual@, plant_number)->Some_0;
                    assert(state.market.actual@[i].number == plant_number);
                    assert(id as int == i);
                    lemma_same_action_equiv(r->Some_0@[0], Action::SelectPlant { plant_number }, heuristic);
                },
                _ => {},
            }
        },
        Phase::BuildCities { .. } | Phase::BuyResources { .. } => {
            let w = choose|w: Vec<Action>| macro_expansion_ok(state, actor, id, Some(w)) && w@.len() == 1 && same_action(w@[0], heuristic);
            lemma_expansion_unique(state, actor, id, r, Some(w));
            lemma_same_action_equiv(r->Some_0@[0], w@[0], heuristic);
        },
        Phase::DiscardPlant { .. } => {
            match heuristic {
                Action::DiscardPlant { plant_number } => {
                    let p = state.spec_player(actor)->Some_0;
                    let s = sorted_numbers(p.plants@);
                    lemma_index_in_first(s, plant_number);
                    lemma_sorted_numbers_len(p.plants@);
                    let i = index_in(s, plant_number)->Some_0;
                    assert(s[i] == plant_number);
                    assert(i < 0x1_0000);
                    assert((i as u16) as int == i);
                    assert(id == DISCARD_PLANT_BASE.wrapping_add(i as u16));
                    assert(id as int == DISCARD_PLANT_BASE + i);
                },
                _ => {},
            }
        },
        _ => {},
    }
}

proof fn lemma_sorted_numbers_len(plants: Seq<PowerPlant>)
    ensures
        sorted_numbers(plants).len() == plants.len(),
{
    crate::encoding::plant_numbers(plants).lemma_sort_by_ensures(crate::encoding::num_leq());
    crate::encoding::plant_numbers(plants).to_multiset_ensures();
    sorted_numbers(plants).to_multiset_ensures();
}

proof fn lemma_least_plant(plants: Seq<PowerPlant>, number: u8, k: int)
    requires
        0 <= k < plants.len(),
        plants[k].number == number,
    ensures
        exists|i: int| 0 <= i < plants.len() && (#[trigger] plants[i]).number == number
            && forall|j: int| 0 <= j < i ==> (#[trigger] plants[j]).number != number,
    decreases k,
{
    if exists|j: int| 0 <= j < k && (#[trigger] plants[j]).number == number {
        let j = choose|j: int| 0 <= j < k && (#[trigger] plants[j]).number == number;
        lemma_least_plant(plants, number, j);
    } else {
        assert(forall|j: int| 0 <= j < k ==> (#[trigger] plants[j]).number != number);
    }
}

/// The first plant `find_plant` names carries the number searched for.
proof fn lemma_find_plant_first(plants: Seq<PowerPlant>, number: u8)
    ensures
        find_plant(plants, number) matches Some(i) ==> 0 <= i < plants.len() && plants[i].number == number,
{
    if exists|i: int| 0 <= i < plants.len() && (#[trigger] plants[i]).number == number {
        let k = choose|i: int| 0 <= i < plants.len() && (#[trigger] plants[i]).number == number;
        lemma_least_plant(plants, number, k);
    }
}

proof fn lemma_least_index(s: Seq<u8>, n: u8, k: int)
    requires
        0 <= k < s.len(),
        s[k] == n,
    ensures
        exists|i: int| 0 <= i < s.len() && s[i] == n && forall|j: int| 0 <= j < i ==> s[j] != n,
    decreases k,
{
    if exists|j: int| 0 <= j < k && s[j] == n {
        let j = choose|j: int| 0 <= j < k && s[j] == n;
        lemma_least_index(s, n, j);
    } else {
        assert(forall|j: int| 0 <= j < k ==> s[j] != n);
    }
}

proof fn lemma_index_in_first(s: Seq<u8>, n: u8)
    ensures
        index_in(s, n) matches Some(i) ==> 0 <= i < s.len() && s[i] == n,
{
    if exists|i: int| 0 <= i < s.len() && s[i] == n {
        let k = choose|i: int| 0 <= i < s.len() && s[i] == n;
        lemma_least_index(s, n, k);
    }
}

/// City `id` of the board has a free house slot this step (fewer houses than
/// the step number) and no house of `actor` yet.
pub open spec fn free_slot_for(state: &GameState, actor: PlayerId, id: Seq<char>) -> bool {
    exists|i: int| 0 <= i < state.map.cities@.len() && (#[trigger] state.map.cities@[i]).id@ == id
        && state.map.cities@[i].owners@.len() < state.step && !state.map.cities@[i].owners@.contains(actor)
}

/// A move that builds only in cities with a free slot for `actor`.
pub open spec fn builds_only_free(state: &GameState, actor: PlayerId, a: Action) -> bool {
    match a {
        Action::BuildCities { city_ids } => forall|j: int| 0 <= j < city_ids@.len() ==> free_slot_for(state, actor, (#[trigger] city_ids@[j])@),
        Action::BuildCity { city_id } => free_slot_for(state, actor, city_id@),
        _ => true,
    }
}

proof fn lemma_offers_free(state: &GameState, actor: PlayerId, k: int)
    requires
        k <= state.map.cities@.len(),
    ensures
        forall|j: int| 0 <= j < offers(state, actor, k).len() ==> free_slot_for(state, actor, (#[trigger] offers(state, actor, k)[j]).0),
    decreases k,
{
    if k > 0 {
        lemma_offers_free(state, actor, k - 1);
        let rest = offers(state, actor, k - 1);
        match offer_for(state, actor, k - 1) {
            Some(o) => {
                assert(state.map.cities@[k - 1].id@ == o.0);
                assert(free_slot_for(state, actor, o.0));
                assert forall|j: int| 0 <= j < rest.push(o).len() implies free_slot_for(state, actor, (#[trigger] rest.push(o)[j]).0) by {
                    if j < rest.len() {
                        assert(rest.push(o)[j] == rest[j]);
                    }
                }
            },
            None => {},
        }
    }
}

proof fn lemma_buildable_free(state: &GameState, actor: PlayerId)
    ensures
        forall|j: int| 0 <= j < spec_buildable(state, actor).len() ==> free_slot_for(state, actor, (#[trigger] spec_buildable(state, actor)[j]).0),
{
    let all = offers(state, actor, state.map.cities@.len() as int);
    lemma_offers_free(state, actor, state.map.cities@.len() as int);
    lemma_offer_order();
    all.lemma_sort_by_ensures(offer_leq());
    let sorted = spec_buildable(state, actor);
    assert forall|j: int| 0 <= j < sorted.len() implies free_slot_for(state, actor, (#[trigger] sorted[j]).0) by {
        assert(sorted.contains(sorted[j]));
        assert(all.contains(sorted[j]));
        let m = choose|m: int| 0 <= m < all.len() && all[m] == sorted[j];
        assert(free_slot_for(state, actor, all[m].0));
    }
}

proof fn lemma_greedy_walk_free(state: &GameState, actor: PlayerId, owned0: Seq<Seq<char>>, sorted: Seq<Offer>, budget: int, limit: int, k: int)
    requires
        k <= sorted.len(),
        forall|m: int| 0 <= m < sorted.len() ==> free_slot_for(state, actor, (#[trigger] sorted[m]).0),
    ensures
        forall|j: int| 0 <= j < greedy_walk(&state.map, owned0, sorted, budget, limit, k).1.len() ==>
            free_slot_for(state, actor, #[trigger] greedy_walk(&state.map, owned0, sorted, budget, limit, k).1[j]),
    decreases k,
{
    if k > 0 {
        lemma_greedy_walk_free(state, actor, owned0, sorted, budget, limit, k - 1);
        let prev = greedy_walk(&state.map, owned0, sorted, budget, limit, k - 1);
        let id = sorted[k - 1].0;
        assert(free_slot_for(state, actor, id));
        let cur = greedy_walk(&state.map, owned0, sorted, budget, limit, k);
        assert forall|j: int| 0 <= j < cur.1.len() implies free_slot_for(state, actor, #[trigger] cur.1[j]) by {
            if cur.1 != prev.1 {
                assert(cur.1 == prev.1.push(id));
                if j < prev.1.len() {
                    assert(cur.1[j] == prev.1[j]);
                }
            }
        }
    }
}

/// A build plan never picks a full city or one the actor already holds a
/// house in: every city it names has fewer houses than the current step.
pub proof fn lemma_build_plan_free_slots(state: &GameState, actor: PlayerId, n: int)
    ensures
        forall|j: int| 0 <= j < spec_buildable(state, actor).len() ==>
            free_slot_for(state, actor, (#[trigger] spec_buildable(state, actor)[j]).0),
        forall|j: int| 0 <= j < spec_cheapest_cities(state, actor, n).len() ==>
            free_slot_for(state, actor, #[trigger] spec_cheapest_cities(state, actor, n)[j]),
{
    lemma_buildable_free(state, actor);
    if n != 0 {
        let money: int = match state.spec_player(actor) {
            Some(p) => p.money as int,
            None => 0,
        };
        let count = owned_city_ids(state.map.cities@, actor).len() as int;
        let cap = crate::buying::sat_sub(state.end_game_cities as int, count % 256);
        let sorted = spec_buildable(state, actor);
        lemma_greedy_walk_free(state, actor, owned_ids(state, actor), sorted, money, crate::buying::min(n, cap), sorted.len() as int);
    }
}

/// Whatever a macro expands to, a build move in it builds only where the
/// actor has a free house slot this step: a city with fewer houses than the
/// step number and none of the actor's.
pub proof fn lemma_macro_builds_free_slots(state: &GameState, actor: PlayerId, macro_id: u16, r: Option<Vec<Action>>)
    requires
        macro_expansion_ok(state, actor, macro_id, r),
        state.phase is BuildCities,
    ensures
        r matches Some(v) ==> forall|k: int| 0 <= k < v@.len() ==> builds_only_free(state, actor, #[trigger] v@[k]),
{
    if BUILD_COUNT_BASE <= macro_id < BUILD_COUNT_BASE + N_BUILD_COUNT {
        let n = macro_id - BUILD_COUNT_BASE;
        lemma_build_plan_free_slots(state, actor, n);
        let ids = spec_cheapest_cities(state, actor, n);
        if ids.len() > 0 {
            let v = r.unwrap();
            assert forall|k: int| 0 <= k < v@.len() implies builds_only_free(state, actor, #[trigger] v@[k]) by {
                match v@[k] {
                    Action::BuildCities { city_ids } => {
                        assert(id_views(city_ids@) == ids);
                        assert forall|j: int| 0 <= j < city_ids@.len() implies free_slot_for(state, actor, (#[trigger] city_ids@[j])@) by {
                            assert(id_views(city_ids@)[j] == city_ids@[j]@);
                        }
                    },
                    _ => {},
                }
            }
        }
    }
}

/// A build count is a ceiling, not a promise: the plan for `n` holds at
/// most `n` cities, never more than the end-game trigger still allows, and
/// its cost (money less the cash the walk leaves) is within the actor's money.
pub proof fn lemma_build_plan_within_limits(state: &GameState, actor: PlayerId, n: int)
    requires
        n >= 0,
    ensures
        spec_cheapest_cities(state, actor, n).len() <= n,
        spec_cheapest_cities(state, actor, n).len() <= crate::buying::sat_sub(
            state.end_game_cities as int,
            owned_city_ids(state.map.cities@, actor).len() as int % 256,
        ),
        n > 0 ==> ({
            let money: int = match state.spec_player(actor) {
                Some(p) => p.money as int,
                None => 0,
            };
            let sorted = spec_buildable(state, actor);
            let count = owned_city_ids(state.map.cities@, actor).len() as int;
            let cap = crate::buying::sat_sub(state.end_game_cities as int, count % 256);
            let cash = greedy_walk(&state.map, owned_ids(state, actor), sorted, money, crate::buying::min(n, cap), sorted.len() as int).2;
            0 <= cash <= money
        }),
{
    if n > 0 {
        let money: int = match state.spec_player(actor) {
            Some(p) => p.money as int,
            None => 0,
        };
        let sorted = spec_buildable(state, actor);
        let count = owned_city_ids(state.map.cities@, actor).len() as int;
        let cap = crate::buying::sat_sub(state.end_game_cities as int, count % 256);
        lemma_greedy_walk_bounds(&state.map, owned_ids(state, actor), sorted, money, crate::buying::min(n, cap), sorted.len() as int);
    }
}

} // verus!
