//! Planning fuel purchases against the resource market: buy as much of a
//! wanted amount as storage and budget allow, top a plant's pool up to a
//! target, and plan one firing's worth for a chosen set of plants.

use vstd::prelude::*;
use vstd::relations::{sorted_by, total_ordering};
use vstd::seq_lib::lemma_sorted_unique;

use crate::market::{cheapest_cost, slot_price, ResourceMarket};
use crate::encoding::{bit_set, test_bit};
use crate::types::{spec_can_add, storage_fits, overflow, kind_storage, PlantKind, Player, PlayerResources, PowerPlant, Resource};

verus! {

/// `n` units of `resource` can be bought now: they are on sale, they fit the
/// storage of `plants` on top of `res`, and they cost at most `budget`.
pub open spec fn can_buy(market: ResourceMarket, plants: Seq<PowerPlant>, res: PlayerResources, budget: int, resource: Resource, n: int) -> bool {
    let count = market.spec_available(resource) as int;
    &&& 0 <= n <= count
    &&& spec_can_add(plants, res, resource, n)
    &&& cheapest_cost(resource, count, n as nat) <= budget
}

/// The largest `n <= k` that `can_buy` allows (0 always is).
pub open spec fn max_buy(market: ResourceMarket, plants: Seq<PowerPlant>, res: PlayerResources, budget: int, resource: Resource, k: int) -> int
    decreases k,
{
    if k <= 0 {
        0
    } else if can_buy(market, plants, res, budget, resource, k) {
        k
    } else {
        max_buy(market, plants, res, budget, resource, k - 1)
    }
}

pub open spec fn min(a: int, b: int) -> int {
    if a < b { a } else { b }
}

/// Units of `resource` bought when `want` are wanted: as many as can be bought.
pub open spec fn bought_amount(market: ResourceMarket, plants: Seq<PowerPlant>, res: PlayerResources, budget: int, resource: Resource, want: int) -> int {
    max_buy(market, plants, res, budget, resource, min(want, market.spec_available(resource) as int))
}

pub proof fn lemma_cheapest_split(resource: Resource, count: int, a: nat, b: nat)
    ensures
        cheapest_cost(resource, count, a + b) == cheapest_cost(resource, count, a) + cheapest_cost(resource, count - a, b),
    decreases a,
{
    if a > 0 {
        lemma_cheapest_split(resource, count - 1, (a - 1) as nat, b);
        assert((a + b - 1) as nat == (a - 1) as nat + b);
    }
}

proof fn lemma_cheapest_mono(resource: Resource, count: int, a: nat, b: nat)
    requires
        a <= b,
    ensures
        cheapest_cost(resource, count, a) <= cheapest_cost(resource, count, b),
{
    lemma_cheapest_split(resource, count, a, (b - a) as nat);
    assert(a + (b - a) as nat == b);
}

proof fn lemma_can_add_mono(plants: Seq<PowerPlant>, res: PlayerResources, resource: Resource, m: int, n: int)
    requires
        1 <= m <= n,
        spec_can_add(plants, res, resource, n),
    ensures
        spec_can_add(plants, res, resource, m),
{
}

proof fn lemma_can_buy_mono(market: ResourceMarket, plants: Seq<PowerPlant>, res: PlayerResources, budget: int, resource: Resource, m: int, n: int)
    requires
        1 <= m <= n,
        can_buy(market, plants, res, budget, resource, n),
    ensures
        can_buy(market, plants, res, budget, resource, m),
{
    lemma_can_add_mono(plants, res, resource, m, n);
    lemma_cheapest_mono(resource, market.spec_available(resource) as int, m as nat, n as nat);
}

proof fn lemma_max_buy(market: ResourceMarket, plants: Seq<PowerPlant>, res: PlayerResources, budget: int, resource: Resource, k: int)
    requires
        budget >= 0,
        k <= market.spec_available(resource),
    ensures
        0 <= max_buy(market, plants, res, budget, resource, k) <= (if k < 0 { 0 } else { k }),
        max_buy(market, plants, res, budget, resource, k) > 0 ==>
            can_buy(market, plants, res, budget, resource, max_buy(market, plants, res, budget, resource, k)),
        forall|n: int| max_buy(market, plants, res, budget, resource, k) < n <= k && 1 <= n ==> !can_buy(market, plants, res, budget, resource, n),
    decreases k,
{
    if k > 0 && !can_buy(market, plants, res, budget, resource, k) {
        lemma_max_buy(market, plants, res, budget, resource, k - 1);
    }
}

/// Buying `n` units and then one more is buying `n + 1` units.
proof fn lemma_one_more(market: ResourceMarket, plants: Seq<PowerPlant>, res: PlayerResources, budget: int, resource: Resource, n: int)
    requires
        0 <= n,
        can_buy(market, plants, res, budget, resource, n),
    ensures
        can_buy(
            market.spec_taken(resource, n),
            plants,
            res.spec_added(resource, n),
            budget - cheapest_cost(resource, market.spec_available(resource) as int, n as nat),
            resource,
            1,
        ) == can_buy(market, plants, res, budget, resource, n + 1),
{
    let count = market.spec_available(resource) as int;
    lemma_cheapest_split(resource, count, n as nat, 1);
    assert(n as nat + 1 == (n + 1) as nat);
    assert(market.spec_taken(resource, n).spec_available(resource) == count - n);
    assert(cheapest_cost(resource, count - n, 1) == slot_price(resource, count - n - 1) + cheapest_cost(resource, count - n - 1, 0));
    assert(res.spec_added(resource, n).spec_added(resource, 1) == res.spec_added(resource, n + 1));
}

/// The largest chunk of at most `cap` units of `resource` that is on sale,
/// fits the player's storage and is affordable with `budget` (0 if none).
fn largest_chunk(market: &ResourceMarket, player: &Player, budget: u32, resource: Resource, cap: u8) -> (r: u8)
    requires
        cap <= market.spec_available(resource),
    ensures
        r == max_buy(*market, player.plants@, player.resources, budget as int, resource, cap as int),
{
    let mut n: u8 = cap;
    while n >= 1
        invariant
            n <= cap,
            cap <= market.spec_available(resource),
            max_buy(*market, player.plants@, player.resources, budget as int, resource, cap as int)
                == max_buy(*market, player.plants@, player.resources, budget as int, resource, n as int),
        decreases n,
    {
        if player.can_add_resource(resource, n) {
            if let Some(cost) = market.price(resource, n) {
                proof {
                    crate::market::lemma_cheapest_cost_bound(resource, market.spec_available(resource) as int, n as nat);
                }
                if cost <= budget {
                    return n;
                }
            }
        }
        n = n - 1;
    }
    0
}

/// Buys as much of `want` units of `resource` as the market, the player's
/// storage and `budget` allow: greedily the largest affordable, storable
/// chunk, again until nothing more can be bought.
pub fn try_buy(
    resource: Resource,
    want: u8,
    market: &mut ResourceMarket,
    player: &mut Player,
    budget: &mut u32,
    purchases: &mut Vec<(Resource, u8)>,
)
    ensures
        ({
            let n = bought_amount(*old(market), old(player).plants@, old(player).resources, *old(budget) as int, resource, want as int);
            let count = old(market).spec_available(resource) as int;
            &&& 0 <= n <= want
            &&& *final(market) == old(market).spec_taken(resource, n)
            &&& final(player).resources == old(player).resources.spec_added(resource, n)
            &&& final(player).plants == old(player).plants
            &&& final(player).id == old(player).id
            &&& final(player).money == old(player).money
            &&& *final(budget) == *old(budget) - cheapest_cost(resource, count, n as nat)
            &&& final(purchases)@ == if n > 0 { old(purchases)@.push((resource, n as u8)) } else { old(purchases)@ }
        }),
{
    let ghost m0 = *market;
    let ghost r0 = player.resources;
    let ghost b0 = *budget as int;
    let ghost p0 = purchases@;
    let ghost plants = player.plants@;
    let ghost count = m0.spec_available(resource) as int;
    let ghost k0 = min(want as int, count);
    let ghost n0 = max_buy(m0, plants, r0, b0, resource, k0);
    proof {
        lemma_max_buy(m0, plants, r0, b0, resource, k0);
    }
    let mut remaining = want;
    let mut done = false;
    while remaining > 0
        invariant
            player.plants@ == plants,
            player.plants == old(player).plants,
            player.id == old(player).id,
            player.money == old(player).money,
            plants == old(player).plants@,
            0 <= n0 <= k0,
            k0 == min(want as int, count),
            count == m0.spec_available(resource),
            b0 >= 0,
            n0 > 0 ==> can_buy(m0, plants, r0, b0, resource, n0),
            n0 == max_buy(m0, plants, r0, b0, resource, k0),
            forall|n: int| n0 < n <= k0 && 1 <= n ==> !can_buy(m0, plants, r0, b0, resource, n),
            !done ==> {
                &&& *market == m0
                &&& player.resources == r0
                &&& *budget == b0
                &&& purchases@ == p0
                &&& remaining == want
            },
            done ==> {
                &&& n0 > 0
                &&& *market == m0.spec_taken(resource, n0)
                &&& player.resources == r0.spec_added(resource, n0)
                &&& *budget == b0 - cheapest_cost(resource, count, n0 as nat)
                &&& purchases@ == p0.push((resource, n0 as u8))
                &&& remaining == want - n0
            },
        ensures
            !done ==> n0 == 0 && *market == m0 && player.resources == r0 && *budget == b0 && purchases@ == p0,
            done ==> {
                &&& n0 > 0
                &&& *market == m0.spec_taken(resource, n0)
                &&& player.resources == r0.spec_added(resource, n0)
                &&& *budget == b0 - cheapest_cost(resource, count, n0 as nat)
                &&& purchases@ == p0.push((resource, n0 as u8))
            },
        decreases remaining,
    {
        let available = market.available(resource);
        let cap = if remaining < available { remaining } else { available };
        if cap == 0 {
            proof {
                if !done {
                    assert(k0 == 0);
                }
            }
            break;
        }
        let ghost k = cap as int;
        proof {
            if done {
                // after the first chunk no further unit can be bought
                assert(n0 < k0);
                lemma_one_more(m0, plants, r0, b0, resource, n0);
                assert(!can_buy(m0, plants, r0, b0, resource, n0 + 1));
                assert forall|n: int| 1 <= n <= k implies !can_buy(*market, plants, player.resources, *budget as int, resource, n) by {
                    if can_buy(*market, plants, player.resources, *budget as int, resource, n) {
                        lemma_can_buy_mono(*market, plants, player.resources, *budget as int, resource, 1, n);
                    }
                }
            } else {
                assert(k == k0);
            }
        }
        let n = largest_chunk(market, player, *budget, resource, cap);
        if n == 0 {
            proof {
                if !done {
                    lemma_max_buy(m0, plants, r0, b0, resource, k0);
                    assert(n0 == 0) by {
                        if n0 > 0 {
                            assert(max_buy(m0, plants, r0, b0, resource, k0) == n0);
                        }
                    }
                }
            }
            break;
        }
        proof {
            lemma_max_buy(*market, plants, player.resources, *budget as int, resource, k);
        }
        let cost = match market.price(resource, n) {
            Some(c) => c,
            None => 0,
        };
        purchases.push((resource, n));
        market.take(resource, n);
        player.resources.add(resource, n);
        *budget = *budget - cost;
        remaining = remaining - n;
        proof {
            assert(!done);
            assert(n as int == n0);
        }
        done = true;
    }
    proof {
        if !done {
            assert(n0 == 0);
        }
    }
}

/// The market, held fuel, budget and appended purchases after a buy step.
pub type BuyOutcome = (ResourceMarket, PlayerResources, int, Seq<(Resource, u8)>);

/// What `try_buy` of `want` units of `resource` leaves behind.
pub open spec fn try_buy_outcome(market: ResourceMarket, plants: Seq<PowerPlant>, res: PlayerResources, budget: int, resource: Resource, want: int) -> BuyOutcome {
    let n = bought_amount(market, plants, res, budget, resource, want);
    let count = market.spec_available(resource) as int;
    (
        market.spec_taken(resource, n),
        res.spec_added(resource, n),
        budget - cheapest_cost(resource, count, n as nat),
        if n > 0 { seq![(resource, n as u8)] } else { seq![] },
    )
}

/// `a - b`, or 0 when `b` is larger.
pub open spec fn sat_sub(a: int, b: int) -> int {
    if a > b { a - b } else { 0 }
}

/// `a + b`, kept within a `u8`.
pub open spec fn sat_add_u8(a: int, b: int) -> int {
    if a + b > 255 { 255 } else { a + b }
}

/// Raising one pure-fuel pool to `target` units.
pub open spec fn top_up_outcome(market: ResourceMarket, plants: Seq<PowerPlant>, res: PlayerResources, budget: int, resource: Resource, target: int) -> BuyOutcome {
    let want = sat_sub(target, res.spec_get(resource) as int);
    if want > 0 {
        try_buy_outcome(market, plants, res, budget, resource, want)
    } else {
        (market, res, budget, seq![])
    }
}

/// What `buy_for_plant` leaves behind: the plant's pool is raised toward
/// `target` units; a hybrid's pool is gas plus oil, bought first from the
/// resource with more units on sale (oil on a tie), then from the other.
pub open spec fn buy_for_plant_outcome(plant: PowerPlant, target: int, market: ResourceMarket, plants: Seq<PowerPlant>, res: PlayerResources, budget: int) -> BuyOutcome {
    match plant.kind {
        PlantKind::Coal => top_up_outcome(market, plants, res, budget, Resource::Coal, target),
        PlantKind::Oil => top_up_outcome(market, plants, res, budget, Resource::Oil, target),
        PlantKind::Gas => top_up_outcome(market, plants, res, budget, Resource::Gas, target),
        PlantKind::Uranium => top_up_outcome(market, plants, res, budget, Resource::Uranium, target),
        PlantKind::Wind => (market, res, budget, seq![]),
        PlantKind::GasOrOil => {
            let want = sat_sub(target, sat_add_u8(res.gas as int, res.oil as int));
            if want == 0 {
                (market, res, budget, seq![])
            } else {
                let prefer_oil = market.spec_available(Resource::Oil) >= market.spec_available(Resource::Gas);
                let first = if prefer_oil { Resource::Oil } else { Resource::Gas };
                let second = if prefer_oil { Resource::Gas } else { Resource::Oil };
                let o1 = try_buy_outcome(market, plants, res, budget, first, want);
                let remaining = sat_sub(target, sat_add_u8(o1.1.gas as int, o1.1.oil as int));
                if remaining > 0 {
                    let o2 = try_buy_outcome(o1.0, plants, o1.1, o1.2, second, remaining);
                    (o2.0, o2.1, o2.2, o1.3 + o2.3)
                } else {
                    o1
                }
            }
        },
    }
}

/// Brings `plant`'s fuel pool up to `target` units by buying from `market`.
pub fn buy_for_plant(
    plant: &PowerPlant,
    target: u8,
    market: &mut ResourceMarket,
    player: &mut Player,
    budget: &mut u32,
    purchases: &mut Vec<(Resource, u8)>,
)
    ensures
        ({
            let o = buy_for_plant_outcome(*plant, target as int, *old(market), old(player).plants@, old(player).resources, *old(budget) as int);
            &&& *final(market) == o.0
            &&& final(player).resources == o.1
            &&& *final(budget) == o.2
            &&& final(purchases)@ == old(purchases)@ + o.3
            &&& final(player).plants == old(player).plants
            &&& final(player).id == old(player).id
            &&& final(player).money == old(player).money
        }),
{
    let ghost p0 = purchases@;
    match plant.kind {
        PlantKind::Coal | PlantKind::Oil | PlantKind::Gas | PlantKind::Uranium => {
            let resource = match plant.kind {
                PlantKind::Coal => Resource::Coal,
                PlantKind::Oil => Resource::Oil,
                PlantKind::Gas => Resource::Gas,
                _ => Resource::Uranium,
            };
            let held = player.resources.get(resource);
            let want = if target > held { target - held } else { 0 };
            if want > 0 {
                try_buy(resource, want, market, player, budget, purchases);
            }
            proof {
                assert(purchases@ =~= p0 + top_up_outcome(*old(market), old(player).plants@, old(player).resources, *old(budget) as int, resource, target as int).3);
            }
        },
        PlantKind::GasOrOil => {
            let combined = player.resources.gas.saturating_add(player.resources.oil);
            let want = if target > combined { target - combined } else { 0 };
            if want == 0 {
                assert(purchases@ =~= p0 + seq![]);
                return;
            }
            let prefer_oil = market.available(Resource::Oil) >= market.available(Resource::Gas);
            let (first, second) = if prefer_oil {
                (Resource::Oil, Resource::Gas)
            } else {
                (Resource::Gas, Resource::Oil)
            };
            try_buy(first, want, market, player, budget, purchases);
            let ghost p1 = purchases@;
            let combined = player.resources.gas.saturating_add(player.resources.oil);
            let remaining = if target > combined { target - combined } else { 0 };
            if remaining > 0 {
                try_buy(second, remaining, market, player, budget, purchases);
                proof {
                    let o1 = try_buy_outcome(*old(market), old(player).plants@, old(player).resources, *old(budget) as int, first, want as int);
                    let o2 = try_buy_outcome(o1.0, old(player).plants@, o1.1, o1.2, second, remaining as int);
                    assert(p1 =~= p0 + o1.3);
                    assert(purchases@ =~= p1 + o2.3);
                    assert(purchases@ =~= p0 + (o1.3 + o2.3));
                }
            } else {
                proof {
                    let o1 = try_buy_outcome(*old(market), old(player).plants@, old(player).resources, *old(budget) as int, first, want as int);
                    assert(p1 =~= p0 + o1.3);
                }
            }
        },
        PlantKind::Wind => {
            assert(purchases@ =~= p0 + seq![]);
        },
    }
}

// ---------------------------------------------------------------------------
// Ordering plants
// ---------------------------------------------------------------------------

pub open spec fn kind_index(k: PlantKind) -> int {
    match k {
        PlantKind::Coal => 0,
        PlantKind::Oil => 1,
        PlantKind::GasOrOil => 2,
        PlantKind::Gas => 3,
        PlantKind::Uranium => 4,
        PlantKind::Wind => 5,
    }
}

fn kind_idx(k: PlantKind) -> (r: u8)
    ensures
        r == kind_index(k),
{
    match k {
        PlantKind::Coal => 0,
        PlantKind::Oil => 1,
        PlantKind::GasOrOil => 2,
        PlantKind::Gas => 3,
        PlantKind::Uranium => 4,
        PlantKind::Wind => 5,
    }
}

/// Sort key of a plant: by number (`by_cities == false`), or most cities
/// first then by number (`by_cities == true`); the remaining fields only
/// break ties between plants that share a number.
pub open spec fn plant_key(p: PowerPlant, by_cities: bool) -> (int, int, int, int) {
    if by_cities {
        (255 - p.cities, p.number as int, kind_index(p.kind), p.cost as int)
    } else {
        (p.number as int, kind_index(p.kind), p.cost as int, p.cities as int)
    }
}

pub open spec fn key_lt(a: (int, int, int, int), b: (int, int, int, int)) -> bool {
    a.0 < b.0 || (a.0 == b.0 && (a.1 < b.1 || (a.1 == b.1 && (a.2 < b.2 || (a.2 == b.2 && a.3 < b.3)))))
}

pub open spec fn plant_leq(by_cities: bool) -> spec_fn(PowerPlant, PowerPlant) -> bool {
    |a: PowerPlant, b: PowerPlant| a == b || key_lt(plant_key(a, by_cities), plant_key(b, by_cities))
}

proof fn lemma_plant_key_injective(a: PowerPlant, b: PowerPlant, by_cities: bool)
    requires
        plant_key(a, by_cities) == plant_key(b, by_cities),
    ensures
        a == b,
{
    assert(a.kind == b.kind) by {
        assert(kind_index(a.kind) == kind_index(b.kind));
    }
}

pub proof fn lemma_plant_order(by_cities: bool)
    ensures
        total_ordering(plant_leq(by_cities)),
{
    let leq = plant_leq(by_cities);
    assert forall|a: PowerPlant, b: PowerPlant| #[trigger] leq(a, b) && #[trigger] leq(b, a) implies a == b by {
        if a != b {
            assert(!(key_lt(plant_key(a, by_cities), plant_key(b, by_cities)) && key_lt(plant_key(b, by_cities), plant_key(a, by_cities))));
        }
    }
    assert forall|a: PowerPlant, b: PowerPlant, c: PowerPlant| #[trigger] leq(a, b) && #[trigger] leq(b, c) implies leq(a, c) by {}
    assert forall|a: PowerPlant, b: PowerPlant| #[trigger] leq(a, b) || #[trigger] leq(b, a) by {
        if plant_key(a, by_cities) == plant_key(b, by_cities) {
            lemma_plant_key_injective(a, b, by_cities);
        }
    }
}

fn plant_lt(a: &PowerPlant, b: &PowerPlant, by_cities: bool) -> (r: bool)
    ensures
        r == key_lt(plant_key(*a, by_cities), plant_key(*b, by_cities)),
{
    let (a0, a1, a2, a3): (i32, i32, i32, i32) = if by_cities {
        (255 - a.cities as i32, a.number as i32, kind_idx(a.kind) as i32, a.cost as i32)
    } else {
        (a.number as i32, kind_idx(a.kind) as i32, a.cost as i32, a.cities as i32)
    };
    let (b0, b1, b2, b3): (i32, i32, i32, i32) = if by_cities {
        (255 - b.cities as i32, b.number as i32, kind_idx(b.kind) as i32, b.cost as i32)
    } else {
        (b.number as i32, kind_idx(b.kind) as i32, b.cost as i32, b.cities as i32)
    };
    a0 < b0 || (a0 == b0 && (a1 < b1 || (a1 == b1 && (a2 < b2 || (a2 == b2 && a3 < b3)))))
}

/// `plants` in the order `plant_leq(by_cities)` gives.
pub fn sort_plants(plants: &Vec<PowerPlant>, by_cities: bool) -> (r: Vec<PowerPlant>)
    ensures
        r@ == plants@.sort_by(plant_leq(by_cities)),
{
    let mut out: Vec<PowerPlant> = Vec::new();
    let mut c: usize = 0;
    while c < plants.len()
        invariant
            c <= plants.len(),
            out@ == plants@.subrange(0, c as int),
        decreases plants.len() - c,
    {
        out.push(plants[c]);
        c = c + 1;
        assert(out@ =~= plants@.subrange(0, c as int));
    }
    assert(out@ =~= plants@);
    let ghost unsorted = out@;
    let ghost leq = plant_leq(by_cities);
    proof {
        lemma_plant_order(by_cities);
    }
    let n = out.len();
    let mut k: usize = 0;
    while k < n
        invariant
            out.len() == n,
            k <= n,
            leq == plant_leq(by_cities),
            total_ordering(leq),
            out@.to_multiset() == unsorted.to_multiset(),
            forall|a: int, b: int| 0 <= a < b < k ==> (#[trigger] leq(out@[a], out@[b])),
        decreases n - k,
    {
        let ghost before = out@;
        let e = out.remove(k);
        let mut j: usize = k;
        while j > 0 && plant_lt(&e, &out[j - 1], by_cities)
            invariant
                out.len() == n - 1,
                j <= k < n,
                leq == plant_leq(by_cities),
                out@ == before.remove(k as int),
                forall|t: int| j <= t < k ==> !leq(#[trigger] out@[t], e) && leq(e, out@[t]),
            decreases j,
        {
            j = j - 1;
        }
        let ghost mid = out@;
        out.insert(j, e);
        proof {
            let ov = out@;
            assert(ov =~= mid.insert(j as int, e));
            if j > 0 {
                assert(leq(mid[j - 1], e) || leq(e, mid[j - 1]));
                assert(leq(mid[j - 1], e));
            }
            assert forall|a: int, b: int| 0 <= a < b < k + 1 implies #[trigger] leq(ov[a], ov[b]) by {
                if a < j && b < j {
                    assert(ov[a] == mid[a] && ov[b] == mid[b]);
                } else if a < j && b == j {
                    assert(leq(mid[a], mid[j - 1]));
                } else if a < j && b > j {
                    assert(ov[b] == mid[b - 1]);
                    assert(leq(mid[a], mid[b - 1]));
                } else if a == j {
                    assert(ov[b] == mid[b - 1]);
                } else {
                    assert(ov[a] == mid[a - 1] && ov[b] == mid[b - 1]);
                }
            }
            broadcast use vstd::seq_lib::to_multiset_insert;
            broadcast use vstd::seq_lib::to_multiset_remove;
            broadcast use vstd::multiset::group_multiset_axioms;
            assert(before[k as int] == e);
            assert(before.remove(k as int).to_multiset() == before.to_multiset().remove(e));
            assert(ov.to_multiset() == mid.to_multiset().insert(e));
            assert(before.to_multiset().contains(e)) by {
                broadcast use vstd::seq_lib::to_multiset_contains;
                assert(before.contains(e));
            }
            assert(ov.to_multiset() =~= before.to_multiset());
        }
        k = k + 1;
    }
    proof {
        assert(sorted_by(out@, leq));
        unsorted.lemma_sort_by_ensures(leq);
        lemma_sorted_unique(out@, unsorted.sort_by(leq), leq);
    }
    out
}

// ---------------------------------------------------------------------------
// One firing's worth for a chosen set of plants
// ---------------------------------------------------------------------------

/// Running cumulative fuel targets: coal, oil, gas, uranium, and the shared
/// gas-and-oil pool.
pub type Targets = (int, int, int, int, int);

/// The plants of `by_number` among its first `n` whose slot bit is set in `slots`.
pub open spec fn picked(by_number: Seq<PowerPlant>, slots: u8, n: int) -> Seq<PowerPlant>
    decreases n,
{
    if n <= 0 {
        seq![]
    } else {
        let rest = picked(by_number, slots, n - 1);
        if n - 1 < 8 && bit_set(slots, n - 1) {
            rest.push(by_number[n - 1])
        } else {
            rest
        }
    }
}

/// The plants chosen by `slots` (bit `i` is the `i`-th plant by number), in
/// the order they are fuelled: most cities first, then by number.
pub open spec fn fuel_order(plants: Seq<PowerPlant>, slots: u8) -> Seq<PowerPlant> {
    let by_number = plants.sort_by(plant_leq(false));
    picked(by_number, slots, by_number.len() as int).sort_by(plant_leq(true))
}

/// A pure-fuel plant adds its cost to its pool's running target (and, for
/// gas and oil, to the shared pool's); the second component is the target
/// its pool is raised to.
pub open spec fn pure_step(p: PowerPlant, t: Targets) -> (Targets, int) {
    match p.kind {
        PlantKind::Coal => {
            let c = sat_add_u8(t.0, p.cost as int);
            ((c, t.1, t.2, t.3, t.4), c)
        },
        PlantKind::Oil => {
            let o = sat_add_u8(t.1, p.cost as int);
            ((t.0, o, t.2, t.3, sat_add_u8(t.4, p.cost as int)), o)
        },
        PlantKind::Gas => {
            let g = sat_add_u8(t.2, p.cost as int);
            ((t.0, t.1, g, t.3, sat_add_u8(t.4, p.cost as int)), g)
        },
        PlantKind::Uranium => {
            let u = sat_add_u8(t.3, p.cost as int);
            ((t.0, t.1, t.2, u, t.4), u)
        },
        _ => (t, 0),
    }
}

/// `o` followed by topping `p`'s pool up to `target`.
pub open spec fn after_buy(o: BuyOutcome, p: PowerPlant, target: int, plants: Seq<PowerPlant>) -> BuyOutcome {
    let b = buy_for_plant_outcome(p, target, o.0, plants, o.1, o.2);
    (b.0, b.1, b.2, o.3 + b.3)
}

/// The first pass: every pure-fuel plant of `ordered`, in order, tops its
/// pool up to the running cumulative target of that pool.
pub open spec fn pass_one(ordered: Seq<PowerPlant>, plants: Seq<PowerPlant>, start: BuyOutcome) -> (BuyOutcome, Targets)
    decreases ordered.len(),
{
    if ordered.len() == 0 {
        (start, (0, 0, 0, 0, 0))
    } else {
        let prev = pass_one(ordered.drop_last(), plants, start);
        let p = ordered.last();
        if p.kind == PlantKind::GasOrOil || p.kind == PlantKind::Wind {
            prev
        } else {
            let st = pure_step(p, prev.1);
            (after_buy(prev.0, p, st.1, plants), st.0)
        }
    }
}

/// The second pass: every hybrid of `ordered`, in order, raises the shared
/// gas-and-oil pool to the running target, which starts at `gasoil`.
pub open spec fn pass_two(ordered: Seq<PowerPlant>, plants: Seq<PowerPlant>, start: BuyOutcome, gasoil: int) -> (BuyOutcome, int)
    decreases ordered.len(),
{
    if ordered.len() == 0 {
        (start, gasoil)
    } else {
        let prev = pass_two(ordered.drop_last(), plants, start, gasoil);
        let p = ordered.last();
        if p.kind == PlantKind::GasOrOil {
            let g = sat_add_u8(prev.1, p.cost as int);
            (after_buy(prev.0, p, g, plants), g)
        } else {
            prev
        }
    }
}

/// What planning one firing of the plants chosen by `slots` leaves behind.
pub open spec fn essential_plan(market: ResourceMarket, plants: Seq<PowerPlant>, res: PlayerResources, budget: int, slots: u8) -> BuyOutcome {
    let ordered = fuel_order(plants, slots);
    let one = pass_one(ordered, plants, (market, res, budget, seq![]));
    pass_two(ordered, plants, one.0, one.1.4).0
}

/// Plans the purchases that let the plants chosen by `slots` fire once, on
/// top of the fuel already held: pure-fuel plants first, then hybrids on the
/// shared gas-and-oil pool, each in the order of `fuel_order`.
pub fn plan_essential_buys(
    market: &mut ResourceMarket,
    player: &mut Player,
    budget: &mut u32,
    purchases: &mut Vec<(Resource, u8)>,
    slots: u8,
)
    ensures
        ({
            let o = essential_plan(*old(market), old(player).plants@, old(player).resources, *old(budget) as int, slots);
            &&& *final(market) == o.0
            &&& final(player).resources == o.1
            &&& *final(budget) == o.2
            &&& final(purchases)@ == old(purchases)@ + o.3
            &&& final(player).plants == old(player).plants
            &&& final(player).id == old(player).id
            &&& final(player).money == old(player).money
        }),
{
    let by_number = sort_plants(&player.plants, false);
    let mut chosen: Vec<PowerPlant> = Vec::new();
    let mut i: usize = 0;
    while i < by_number.len()
        invariant
            i <= by_number.len(),
            chosen@ == picked(by_number@, slots, i as int),
        decreases by_number.len() - i,
    {
        if i < 8 && test_bit(slots, i) {
            chosen.push(by_number[i]);
        }
        i = i + 1;
    }
    let ordered = sort_plants(&chosen, true);
    let ghost plants = player.plants@;
    let ghost start: BuyOutcome = (*market, player.resources, *budget as int, seq![]);
    let ghost p0 = purchases@;
    assert(ordered@ == fuel_order(plants, slots));
    let mut coal: u8 = 0;
    let mut oil: u8 = 0;
    let mut gas: u8 = 0;
    let mut uranium: u8 = 0;
    let mut gasoil: u8 = 0;
    let mut j: usize = 0;
    while j < ordered.len()
        invariant
            j <= ordered.len(),
            player.plants@ == plants,
            player.plants == old(player).plants,
            player.id == old(player).id,
            player.money == old(player).money,
            ({
                let r = pass_one(ordered@.take(j as int), plants, start);
                &&& *market == r.0.0
                &&& player.resources == r.0.1
                &&& *budget == r.0.2
                &&& purchases@ == p0 + r.0.3
                &&& r.1 == (coal as int, oil as int, gas as int, uranium as int, gasoil as int)
            }),
        decreases ordered.len() - j,
    {
        let p = ordered[j];
        let ghost before = pass_one(ordered@.take(j as int), plants, start);
        let ghost pb = purchases@;
        proof {
            assert(ordered@.take(j + 1).drop_last() =~= ordered@.take(j as int));
            assert(ordered@.take(j + 1).last() == p);
        }
        match p.kind {
            PlantKind::Coal => {
                coal = coal.saturating_add(p.cost);
                buy_for_plant(&p, coal, market, player, budget, purchases);
            },
            PlantKind::Oil => {
                oil = oil.saturating_add(p.cost);
                gasoil = gasoil.saturating_add(p.cost);
                buy_for_plant(&p, oil, market, player, budget, purchases);
            },
            PlantKind::Gas => {
                gas = gas.saturating_add(p.cost);
                gasoil = gasoil.saturating_add(p.cost);
                buy_for_plant(&p, gas, market, player, budget, purchases);
            },
            PlantKind::Uranium => {
                uranium = uranium.saturating_add(p.cost);
                buy_for_plant(&p, uranium, market, player, budget, purchases);
            },
            PlantKind::Wind | PlantKind::GasOrOil => {},
        }
        proof {
            if p.kind != PlantKind::Wind && p.kind != PlantKind::GasOrOil {
                let st = pure_step(p, before.1);
                let b = buy_for_plant_outcome(p, st.1, before.0.0, plants, before.0.1, before.0.2);
                assert(purchases@ =~= p0 + (before.0.3 + b.3));
            }
        }
        j = j + 1;
    }
    proof {
        assert(ordered@.take(ordered.len() as int) =~= ordered@);
    }
    let ghost one = pass_one(ordered@, plants, start);
    let mut k: usize = 0;
    while k < ordered.len()
        invariant
            k <= ordered.len(),
            player.plants@ == plants,
            player.plants == old(player).plants,
            player.id == old(player).id,
            player.money == old(player).money,
            ({
                let r = pass_two(ordered@.take(k as int), plants, one.0, one.1.4);
                &&& *market == r.0.0
                &&& player.resources == r.0.1
                &&& *budget == r.0.2
                &&& purchases@ == p0 + r.0.3
                &&& r.1 == gasoil as int
            }),
        decreases ordered.len() - k,
    {
        let p = ordered[k];
        let ghost before = pass_two(ordered@.take(k as int), plants, one.0, one.1.4);
        proof {
            assert(ordered@.take(k + 1).drop_last() =~= ordered@.take(k as int));
            assert(ordered@.take(k + 1).last() == p);
        }
        if p.kind == PlantKind::GasOrOil {
            gasoil = gasoil.saturating_add(p.cost);
            buy_for_plant(&p, gasoil, market, player, budget, purchases);
            proof {
                let b = buy_for_plant_outcome(p, gasoil as int, before.0.0, plants, before.0.1, before.0.2);
                assert(purchases@ =~= p0 + (before.0.3 + b.3));
            }
        }
        k = k + 1;
    }
    proof {
        assert(ordered@.take(ordered.len() as int) =~= ordered@);
    }
}

// ---------------------------------------------------------------------------
// Laws of buying
// ---------------------------------------------------------------------------

/// The outcome keeps the fuel within the rack's storage, spends at most the
/// budget, and takes from the market no more than it had.
pub open spec fn safe_step(before: BuyOutcome, after: BuyOutcome, plants: Seq<PowerPlant>) -> bool {
    &&& storage_fits(plants, after.1)
    &&& 0 <= after.2 <= before.2
    &&& after.0.coal <= before.0.coal && after.0.oil <= before.0.oil
    &&& after.0.gas <= before.0.gas && after.0.uranium <= before.0.uranium
}

/// A buy step never overfills storage, never overspends and never takes
/// more than is on sale.
pub proof fn lemma_try_buy_safe(market: ResourceMarket, plants: Seq<PowerPlant>, res: PlayerResources, budget: int, resource: Resource, want: int)
    requires
        storage_fits(plants, res),
        budget >= 0,
    ensures
        safe_step(
            (market, res, budget, seq![]),
            try_buy_outcome(market, plants, res, budget, resource, want),
            plants,
        ),
{
    let count = market.spec_available(resource) as int;
    let k = min(want, count);
    lemma_max_buy(market, plants, res, budget, resource, k);
    let n = bought_amount(market, plants, res, budget, resource, want);
    if n == 0 {
        assert(res.spec_added(resource, 0) == res);
        assert(market.spec_taken(resource, 0) == market);
    }
}

/// Topping one plant's pool up is as safe as each buy step in it.
pub proof fn lemma_buy_for_plant_safe(plant: PowerPlant, target: int, market: ResourceMarket, plants: Seq<PowerPlant>, res: PlayerResources, budget: int)
    requires
        storage_fits(plants, res),
        budget >= 0,
    ensures
        safe_step(
            (market, res, budget, seq![]),
            buy_for_plant_outcome(plant, target, market, plants, res, budget),
            plants,
        ),
{
    let start: BuyOutcome = (market, res, budget, seq![]);
    match plant.kind {
        PlantKind::Coal => lemma_try_buy_safe(market, plants, res, budget, Resource::Coal, sat_sub(target, res.coal as int)),
        PlantKind::Oil => lemma_try_buy_safe(market, plants, res, budget, Resource::Oil, sat_sub(target, res.oil as int)),
        PlantKind::Gas => lemma_try_buy_safe(market, plants, res, budget, Resource::Gas, sat_sub(target, res.gas as int)),
        PlantKind::Uranium => lemma_try_buy_safe(market, plants, res, budget, Resource::Uranium, sat_sub(target, res.uranium as int)),
        PlantKind::Wind => {},
        PlantKind::GasOrOil => {
            let want = sat_sub(target, sat_add_u8(res.gas as int, res.oil as int));
            if want != 0 {
                let prefer_oil = market.spec_available(Resource::Oil) >= market.spec_available(Resource::Gas);
                let first = if prefer_oil { Resource::Oil } else { Resource::Gas };
                let second = if prefer_oil { Resource::Gas } else { Resource::Oil };
                lemma_try_buy_safe(market, plants, res, budget, first, want);
                let o1 = try_buy_outcome(market, plants, res, budget, first, want);
                let remaining = sat_sub(target, sat_add_u8(o1.1.gas as int, o1.1.oil as int));
                if remaining > 0 {
                    lemma_try_buy_safe(o1.0, plants, o1.1, o1.2, second, remaining);
                }
            }
        },
    }
}

proof fn lemma_pass_one_safe(ordered: Seq<PowerPlant>, plants: Seq<PowerPlant>, start: BuyOutcome)
    requires
        storage_fits(plants, start.1),
        start.2 >= 0,
    ensures
        safe_step(start, pass_one(ordered, plants, start).0, plants),
    decreases ordered.len(),
{
    if ordered.len() > 0 {
        lemma_pass_one_safe(ordered.drop_last(), plants, start);
        let prev = pass_one(ordered.drop_last(), plants, start);
        let p = ordered.last();
        if !(p.kind == PlantKind::GasOrOil || p.kind == PlantKind::Wind) {
            let st = pure_step(p, prev.1);
            lemma_buy_for_plant_safe(p, st.1, prev.0.0, plants, prev.0.1, prev.0.2);
        }
    }
}

proof fn lemma_pass_two_safe(ordered: Seq<PowerPlant>, plants: Seq<PowerPlant>, start: BuyOutcome, gasoil: int)
    requires
        storage_fits(plants, start.1),
        start.2 >= 0,
    ensures
        safe_step(start, pass_two(ordered, plants, start, gasoil).0, plants),
    decreases ordered.len(),
{
    if ordered.len() > 0 {
        lemma_pass_two_safe(ordered.drop_last(), plants, start, gasoil);
        let prev = pass_two(ordered.drop_last(), plants, start, gasoil);
        let p = ordered.last();
        if p.kind == PlantKind::GasOrOil {
            let g = sat_add_u8(prev.1, p.cost as int);
            lemma_buy_for_plant_safe(p, g, prev.0.0, plants, prev.0.1, prev.0.2);
        }
    }
}

/// Planning a firing never overfills the rack's storage, never spends more
/// than the budget, and never takes more of a resource than is on sale,
/// whatever plants are chosen.
pub proof fn lemma_essential_plan_safe(market: ResourceMarket, plants: Seq<PowerPlant>, res: PlayerResources, budget: int, slots: u8)
    requires
        storage_fits(plants, res),
        budget >= 0,
    ensures
        safe_step((market, res, budget, seq![]), essential_plan(market, plants, res, budget, slots), plants),
{
    let ordered = fuel_order(plants, slots);
    let start: BuyOutcome = (market, res, budget, seq![]);
    lemma_pass_one_safe(ordered, plants, start);
    let one = pass_one(ordered, plants, start);
    lemma_pass_two_safe(ordered, plants, one.0, one.1.4);
}


// ---------------------------------------------------------------------------
// Cumulative demand
// ---------------------------------------------------------------------------

/// Summed firing cost of the plants of `kind` among `plants`.
pub open spec fn kind_cost(plants: Seq<PowerPlant>, kind: PlantKind) -> nat
    decreases plants.len(),
{
    if plants.len() == 0 {
        0
    } else {
        kind_cost(plants.drop_last(), kind) + if plants.last().kind == kind { plants.last().cost as nat } else { 0nat }
    }
}

/// The plant kind that burns `resource` alone.
pub open spec fn burner(resource: Resource) -> PlantKind {
    match resource {
        Resource::Coal => PlantKind::Coal,
        Resource::Oil => PlantKind::Oil,
        Resource::Gas => PlantKind::Gas,
        Resource::Uranium => PlantKind::Uranium,
    }
}

/// Units of `resource` one firing of all of `plants` burns in pure plants
/// (a pool holds at most 255).
pub open spec fn pool_demand(plants: Seq<PowerPlant>, resource: Resource) -> int {
    min(kind_cost(plants, burner(resource)) as int, 255)
}

/// The larger of the pool `resource` in `res` and the demand of `plants` on it.
pub open spec fn raised_pool(res: PlayerResources, plants: Seq<PowerPlant>, resource: Resource) -> int {
    if res.spec_get(resource) >= pool_demand(plants, resource) { res.spec_get(resource) as int } else { pool_demand(plants, resource) }
}

/// `res` with every pure-fuel pool raised to the demand of `plants`.
pub open spec fn raised_to_demand(res: PlayerResources, plants: Seq<PowerPlant>) -> PlayerResources {
    PlayerResources {
        coal: raised_pool(res, plants, Resource::Coal) as u8,
        oil: raised_pool(res, plants, Resource::Oil) as u8,
        gas: raised_pool(res, plants, Resource::Gas) as u8,
        uranium: raised_pool(res, plants, Resource::Uranium) as u8,
    }
}

/// What the cheapest `n` units of `resource` cost on `market`.
pub open spec fn units_cost(market: ResourceMarket, resource: Resource, n: int) -> int {
    cheapest_cost(resource, market.spec_available(resource) as int, n as nat) as int
}

/// What buying, on `market`, every unit `res` lacks of the demand of
/// `plants` costs, over the four pure-fuel pools.
pub open spec fn shortfall_cost(market: ResourceMarket, res: PlayerResources, plants: Seq<PowerPlant>) -> int {
    units_cost(market, Resource::Coal, sat_sub(pool_demand(plants, Resource::Coal), res.coal as int))
        + units_cost(market, Resource::Oil, sat_sub(pool_demand(plants, Resource::Oil), res.oil as int))
        + units_cost(market, Resource::Gas, sat_sub(pool_demand(plants, Resource::Gas), res.gas as int))
        + units_cost(market, Resource::Uranium, sat_sub(pool_demand(plants, Resource::Uranium), res.uranium as int))
}

/// What raising the pools from `r0` to `r` costs on `m0`.
pub open spec fn spent(m0: ResourceMarket, r0: PlayerResources, r: PlayerResources) -> int {
    units_cost(m0, Resource::Coal, r.coal - r0.coal) + units_cost(m0, Resource::Oil, r.oil - r0.oil)
        + units_cost(m0, Resource::Gas, r.gas - r0.gas) + units_cost(m0, Resource::Uranium, r.uranium - r0.uranium)
}

/// `o` is where the first pass stands after `seq`, from market `m0`,
/// fuel `r0` and budget `b0`: each pool raised to `seq`'s demand on it,
/// exactly the units added taken from the market and paid for.
pub open spec fn pools_track(m0: ResourceMarket, r0: PlayerResources, b0: int, seq: Seq<PowerPlant>, o: BuyOutcome) -> bool {
    &&& forall|x: Resource| #[trigger] o.1.spec_get(x) == raised_pool(r0, seq, x)
    &&& forall|x: Resource| #[trigger] o.0.spec_available(x) == m0.spec_available(x) - (o.1.spec_get(x) - r0.spec_get(x))
    &&& o.2 == b0 - spent(m0, r0, o.1)
}

proof fn lemma_storage_fits_mono(plants: Seq<PowerPlant>, small: PlayerResources, big: PlayerResources)
    requires
        storage_fits(plants, big),
        small.coal <= big.coal,
        small.oil <= big.oil,
        small.gas <= big.gas,
        small.uranium <= big.uranium,
    ensures
        storage_fits(plants, small),
{
}

proof fn lemma_units_cost_mono(market: ResourceMarket, resource: Resource, a: int, b: int)
    requires
        0 <= a <= b,
    ensures
        units_cost(market, resource, a) <= units_cost(market, resource, b),
{
    lemma_cheapest_mono(resource, market.spec_available(resource) as int, a as nat, b as nat);
}

/// Topping the pool `q` up to `t` (at most the demand of `full` on it) when
/// every pool so far stands between `r0` and the demand of `full`: with
/// enough on sale, storage and budget, the pool reaches `t` exactly.
proof fn lemma_top_up_tracks(
    q: Resource,
    t: int,
    m: ResourceMarket,
    r: PlayerResources,
    b: int,
    plants: Seq<PowerPlant>,
    m0: ResourceMarket,
    r0: PlayerResources,
    b0: int,
    full: Seq<PowerPlant>,
)
    requires
        forall|x: Resource| r0.spec_get(x) <= #[trigger] r.spec_get(x) <= raised_pool(r0, full, x),
        forall|x: Resource| #[trigger] m.spec_available(x) == m0.spec_available(x) - (r.spec_get(x) - r0.spec_get(x)),
        b == b0 - spent(m0, r0, r),
        forall|x: Resource| #[trigger] m0.spec_available(x) >= pool_demand(full, x),
        storage_fits(plants, raised_to_demand(r0, full)),
        b0 >= shortfall_cost(m0, r0, full),
        0 <= t <= pool_demand(full, q),
    ensures
        ({
            let o = top_up_outcome(m, plants, r, b, q, t);
            &&& o.1.spec_get(q) == (if r.spec_get(q) >= t { r.spec_get(q) as int } else { t })
            &&& forall|x: Resource| x != q ==> #[trigger] o.1.spec_get(x) == r.spec_get(x)
            &&& forall|x: Resource| #[trigger] o.0.spec_available(x) == m0.spec_available(x) - (o.1.spec_get(x) - r0.spec_get(x))
            &&& o.2 == b0 - spent(m0, r0, o.1)
        }),
{
    let want = sat_sub(t, r.spec_get(q) as int);
    if want > 0 {
        let rq = r.spec_get(q) as int;
        let bq = rq - r0.spec_get(q);
        let count = m.spec_available(q) as int;
        assert(count == m0.spec_available(q) - bq);
        assert(want <= count);
        // storage: the pool at t, the rest where they stand, all within the raised pools
        let after = r.spec_added(q, want);
        assert(after.spec_get(q) == t);
        let big = raised_to_demand(r0, full);
        assert(r.coal <= big.coal && r.oil <= big.oil && r.gas <= big.gas && r.uranium <= big.uranium) by {
            assert(r.spec_get(Resource::Coal) <= raised_pool(r0, full, Resource::Coal));
            assert(r.spec_get(Resource::Oil) <= raised_pool(r0, full, Resource::Oil));
            assert(r.spec_get(Resource::Gas) <= raised_pool(r0, full, Resource::Gas));
            assert(r.spec_get(Resource::Uranium) <= raised_pool(r0, full, Resource::Uranium));
        }
        lemma_storage_fits_mono(plants, after, big);
        assert(spec_can_add(plants, r, q, want));
        // budget: the pool's purchases so far plus this one are within its shortfall
        lemma_cheapest_split(q, m0.spec_available(q) as int, bq as nat, want as nat);
        assert(bq as nat + want as nat == (bq + want) as nat);
        let after_spent = spent(m0, r0, after);
        assert(units_cost(m0, q, bq + want) == units_cost(m0, q, bq) + cheapest_cost(q, count, want as nat));
        assert(after_spent == spent(m0, r0, r) + cheapest_cost(q, count, want as nat)) by {
            assert(after.spec_get(q) - r0.spec_get(q) == bq + want);
        }
        assert forall|x: Resource| r0.spec_get(x) <= #[trigger] after.spec_get(x) <= raised_pool(r0, full, x) by {
            if x != q {
                assert(after.spec_get(x) == r.spec_get(x));
            }
        }
        assert(r0.spec_get(Resource::Coal) <= after.spec_get(Resource::Coal) <= raised_pool(r0, full, Resource::Coal));
        assert(r0.spec_get(Resource::Oil) <= after.spec_get(Resource::Oil) <= raised_pool(r0, full, Resource::Oil));
        assert(r0.spec_get(Resource::Gas) <= after.spec_get(Resource::Gas) <= raised_pool(r0, full, Resource::Gas));
        assert(r0.spec_get(Resource::Uranium) <= after.spec_get(Resource::Uranium) <= raised_pool(r0, full, Resource::Uranium));
        lemma_units_cost_mono(m0, Resource::Coal, after.coal - r0.coal, sat_sub(pool_demand(full, Resource::Coal), r0.coal as int));
        lemma_units_cost_mono(m0, Resource::Oil, after.oil - r0.oil, sat_sub(pool_demand(full, Resource::Oil), r0.oil as int));
        lemma_units_cost_mono(m0, Resource::Gas, after.gas - r0.gas, sat_sub(pool_demand(full, Resource::Gas), r0.gas as int));
        lemma_units_cost_mono(m0, Resource::Uranium, after.uranium - r0.uranium, sat_sub(pool_demand(full, Resource::Uranium), r0.uranium as int));
        assert(after_spent <= shortfall_cost(m0, r0, full));
        assert(can_buy(m, plants, r, b, q, want));
        assert(min(want, count) == want);
        assert(bought_amount(m, plants, r, b, q, want) == want);
        let o = top_up_outcome(m, plants, r, b, q, t);
        assert(o.1 == after);
        assert forall|x: Resource| #[trigger] o.0.spec_available(x) == m0.spec_available(x) - (o.1.spec_get(x) - r0.spec_get(x)) by {
            assert(m.spec_available(x) == m0.spec_available(x) - (r.spec_get(x) - r0.spec_get(x)));
        }
    } else {
        let o = top_up_outcome(m, plants, r, b, q, t);
        assert(o.1 == r);
        assert(o.0 == m);
    }
}

proof fn lemma_kind_cost_grows(seq: Seq<PowerPlant>, kind: PlantKind)
    requires
        seq.len() > 0,
    ensures
        kind_cost(seq.drop_last(), kind) <= kind_cost(seq, kind),
{
}

/// The first pass raises every pure-fuel pool to the summed firing cost of
/// the plants of its kind seen so far, when there is enough on sale,
/// storage and budget for the demand of `full`.
#[verifier::rlimit(40)]
proof fn lemma_pass_one_tracks(seq: Seq<PowerPlant>, plants: Seq<PowerPlant>, start: BuyOutcome, full: Seq<PowerPlant>)
    requires
        forall|x: Resource| #[trigger] pool_demand(seq, x) <= pool_demand(full, x),
        forall|x: Resource| #[trigger] start.0.spec_available(x) >= pool_demand(full, x),
        storage_fits(plants, raised_to_demand(start.1, full)),
        start.2 >= shortfall_cost(start.0, start.1, full),
    ensures
        pools_track(start.0, start.1, start.2, seq, pass_one(seq, plants, start).0),
        pass_one(seq, plants, start).1.0 == pool_demand(seq, Resource::Coal),
        pass_one(seq, plants, start).1.1 == pool_demand(seq, Resource::Oil),
        pass_one(seq, plants, start).1.2 == pool_demand(seq, Resource::Gas),
        pass_one(seq, plants, start).1.3 == pool_demand(seq, Resource::Uranium),
    decreases seq.len(),
{
    let (m0, r0, b0) = (start.0, start.1, start.2);
    if seq.len() == 0 {
        let o = pass_one(seq, plants, start).0;
        assert(o == start);
        assert forall|x: Resource| #[trigger] o.1.spec_get(x) == raised_pool(r0, seq, x) by {
            assert(kind_cost(seq, burner(x)) == 0);
        }
        assert(spent(m0, r0, r0) == 0);
    } else {
        let prev_seq = seq.drop_last();
        assert forall|x: Resource| #[trigger] pool_demand(prev_seq, x) <= pool_demand(full, x) by {
            lemma_kind_cost_grows(seq, burner(x));
            assert(pool_demand(prev_seq, x) <= pool_demand(seq, x));
        }
        lemma_pass_one_tracks(prev_seq, plants, start, full);
        let prev = pass_one(prev_seq, plants, start);
        let p = seq.last();
        let (m, r, b) = (prev.0.0, prev.0.1, prev.0.2);
        assert forall|x: Resource| r0.spec_get(x) <= #[trigger] r.spec_get(x) <= raised_pool(r0, full, x) by {
            assert(r.spec_get(x) == raised_pool(r0, prev_seq, x));
            assert(pool_demand(prev_seq, x) <= pool_demand(full, x));
        }
        if p.kind == PlantKind::GasOrOil || p.kind == PlantKind::Wind {
            assert forall|x: Resource| #[trigger] pool_demand(seq, x) == pool_demand(prev_seq, x) by {
                assert(kind_cost(seq, burner(x)) == kind_cost(prev_seq, burner(x)));
            }
            assert forall|x: Resource| #[trigger] raised_pool(r0, seq, x) == raised_pool(r0, prev_seq, x) by {
                assert(pool_demand(seq, x) == pool_demand(prev_seq, x));
            }
        } else {
            let q = match p.kind {
                PlantKind::Coal => Resource::Coal,
                PlantKind::Oil => Resource::Oil,
                PlantKind::Gas => Resource::Gas,
                _ => Resource::Uranium,
            };
            assert(burner(q) == p.kind);
            let st = pure_step(p, prev.1);
            assert(st.1 == pool_demand(seq, q)) by {
                assert(kind_cost(seq, p.kind) == kind_cost(prev_seq, p.kind) + p.cost);
            }
            assert forall|x: Resource| x != q implies #[trigger] pool_demand(seq, x) == pool_demand(prev_seq, x) by {
                assert(burner(x) != p.kind);
                assert(kind_cost(seq, burner(x)) == kind_cost(prev_seq, burner(x)));
            }
            assert(st.0.0 == pool_demand(seq, Resource::Coal));
            assert(st.0.1 == pool_demand(seq, Resource::Oil));
            assert(st.0.2 == pool_demand(seq, Resource::Gas));
            assert(st.0.3 == pool_demand(seq, Resource::Uranium));
            assert(pool_demand(seq, q) <= pool_demand(full, q));
            assert(pool_demand(seq, q) >= 0);
            lemma_top_up_tracks(q, st.1, m, r, b, plants, m0, r0, b0, full);
            let o = pass_one(seq, plants, start).0;
            let bo = buy_for_plant_outcome(p, st.1, m, plants, r, b);
            assert(bo == top_up_outcome(m, plants, r, b, q, st.1));
            assert(o.0 == bo.0 && o.1 == bo.1 && o.2 == bo.2);
            assert forall|x: Resource| #[trigger] o.1.spec_get(x) == raised_pool(r0, seq, x) by {
                if x == q {
                    assert(pool_demand(prev_seq, q) <= pool_demand(seq, q)) by {
                        lemma_kind_cost_grows(seq, burner(q));
                    }
                    assert(r.spec_get(q) == raised_pool(r0, prev_seq, q));
                } else {
                    assert(o.1.spec_get(x) == r.spec_get(x));
                    assert(r.spec_get(x) == raised_pool(r0, prev_seq, x));
                    assert(pool_demand(seq, x) == pool_demand(prev_seq, x));
                }
            }
        }
    }
}

/// The resources of `a` are no more than those of `b`, pool by pool.
pub open spec fn pools_le(a: PlayerResources, b: PlayerResources) -> bool {
    a.coal <= b.coal && a.oil <= b.oil && a.gas <= b.gas && a.uranium <= b.uranium
}

proof fn lemma_try_buy_grows(market: ResourceMarket, plants: Seq<PowerPlant>, res: PlayerResources, budget: int, resource: Resource, want: int)
    requires
        budget >= 0,
    ensures
        pools_le(res, try_buy_outcome(market, plants, res, budget, resource, want).1),
        try_buy_outcome(market, plants, res, budget, resource, want).2 >= 0,
{
    let count = market.spec_available(resource) as int;
    let k = min(want, count);
    lemma_max_buy(market, plants, res, budget, resource, k);
    let n = bought_amount(market, plants, res, budget, resource, want);
    if n == 0 {
        assert(res.spec_added(resource, 0) == res);
    }
}

proof fn lemma_buy_for_plant_grows(plant: PowerPlant, target: int, market: ResourceMarket, plants: Seq<PowerPlant>, res: PlayerResources, budget: int)
    requires
        budget >= 0,
    ensures
        pools_le(res, buy_for_plant_outcome(plant, target, market, plants, res, budget).1),
        buy_for_plant_outcome(plant, target, market, plants, res, budget).2 >= 0,
{
    match plant.kind {
        PlantKind::Coal => lemma_try_buy_grows(market, plants, res, budget, Resource::Coal, sat_sub(target, res.coal as int)),
        PlantKind::Oil => lemma_try_buy_grows(market, plants, res, budget, Resource::Oil, sat_sub(target, res.oil as int)),
        PlantKind::Gas => lemma_try_buy_grows(market, plants, res, budget, Resource::Gas, sat_sub(target, res.gas as int)),
        PlantKind::Uranium => lemma_try_buy_grows(market, plants, res, budget, Resource::Uranium, sat_sub(target, res.uranium as int)),
        PlantKind::Wind => {},
        PlantKind::GasOrOil => {
            let want = sat_sub(target, sat_add_u8(res.gas as int, res.oil as int));
            if want != 0 {
                let prefer_oil = market.spec_available(Resource::Oil) >= market.spec_available(Resource::Gas);
                let first = if prefer_oil { Resource::Oil } else { Resource::Gas };
                let second = if prefer_oil { Resource::Gas } else { Resource::Oil };
                lemma_try_buy_grows(market, plants, res, budget, first, want);
                let o1 = try_buy_outcome(market, plants, res, budget, first, want);
                let remaining = sat_sub(target, sat_add_u8(o1.1.gas as int, o1.1.oil as int));
                if remaining > 0 {
                    lemma_try_buy_grows(o1.0, plants, o1.1, o1.2, second, remaining);
                }
            }
        },
    }
}

proof fn lemma_pass_two_grows(ordered: Seq<PowerPlant>, plants: Seq<PowerPlant>, start: BuyOutcome, gasoil: int)
    requires
        start.2 >= 0,
    ensures
        pools_le(start.1, pass_two(ordered, plants, start, gasoil).0.1),
        pass_two(ordered, plants, start, gasoil).0.2 >= 0,
    decreases ordered.len(),
{
    if ordered.len() > 0 {
        lemma_pass_two_grows(ordered.drop_last(), plants, start, gasoil);
        let prev = pass_two(ordered.drop_last(), plants, start, gasoil);
        let p = ordered.last();
        if p.kind == PlantKind::GasOrOil {
            let g = sat_add_u8(prev.1, p.cost as int);
            lemma_buy_for_plant_grows(p, g, prev.0.0, plants, prev.0.1, prev.0.2);
        }
    }
}

/// Fuel targets add up across plants: when enough of each fuel is on sale,
/// the storage takes every pool raised to its demand and the budget covers
/// buying what is missing, planning a firing leaves each pure-fuel pool
/// holding at least the summed firing cost of all chosen plants of its kind
/// (at most 255), so every chosen pure-fuel plant can fire in the same turn.
pub proof fn lemma_essential_plan_covers_demand(market: ResourceMarket, plants: Seq<PowerPlant>, res: PlayerResources, budget: int, slots: u8)
    requires
        forall|x: Resource| #[trigger] market.spec_available(x) >= pool_demand(fuel_order(plants, slots), x),
        storage_fits(plants, raised_to_demand(res, fuel_order(plants, slots))),
        budget >= shortfall_cost(market, res, fuel_order(plants, slots)),
    ensures
        forall|x: Resource| #[trigger] essential_plan(market, plants, res, budget, slots).1.spec_get(x)
            >= pool_demand(fuel_order(plants, slots), x),
{
    let ordered = fuel_order(plants, slots);
    let start: BuyOutcome = (market, res, budget, seq![]);
    lemma_pass_one_tracks(ordered, plants, start, ordered);
    let one = pass_one(ordered, plants, start);
    lemma_units_cost_mono(market, Resource::Coal, 0, sat_sub(pool_demand(ordered, Resource::Coal), res.coal as int));
    lemma_units_cost_mono(market, Resource::Oil, 0, sat_sub(pool_demand(ordered, Resource::Oil), res.oil as int));
    lemma_units_cost_mono(market, Resource::Gas, 0, sat_sub(pool_demand(ordered, Resource::Gas), res.gas as int));
    lemma_units_cost_mono(market, Resource::Uranium, 0, sat_sub(pool_demand(ordered, Resource::Uranium), res.uranium as int));
    assert(one.0.2 >= 0) by {
        let r = one.0.1;
        assert(r.spec_get(Resource::Coal) == raised_pool(res, ordered, Resource::Coal));
        assert(r.spec_get(Resource::Oil) == raised_pool(res, ordered, Resource::Oil));
        assert(r.spec_get(Resource::Gas) == raised_pool(res, ordered, Resource::Gas));
        assert(r.spec_get(Resource::Uranium) == raised_pool(res, ordered, Resource::Uranium));
        lemma_units_cost_mono(market, Resource::Coal, r.coal - res.coal, sat_sub(pool_demand(ordered, Resource::Coal), res.coal as int));
        lemma_units_cost_mono(market, Resource::Oil, r.oil - res.oil, sat_sub(pool_demand(ordered, Resource::Oil), res.oil as int));
        lemma_units_cost_mono(market, Resource::Gas, r.gas - res.gas, sat_sub(pool_demand(ordered, Resource::Gas), res.gas as int));
        lemma_units_cost_mono(market, Resource::Uranium, r.uranium - res.uranium, sat_sub(pool_demand(ordered, Resource::Uranium), res.uranium as int));
        assert(r.spec_get(Resource::Coal) == raised_pool(res, ordered, Resource::Coal));
        assert(r.spec_get(Resource::Oil) == raised_pool(res, ordered, Resource::Oil));
        assert(r.spec_get(Resource::Gas) == raised_pool(res, ordered, Resource::Gas));
        assert(r.spec_get(Resource::Uranium) == raised_pool(res, ordered, Resource::Uranium));
    }
    lemma_pass_two_grows(ordered, plants, one.0, one.1.4);
    let fin = essential_plan(market, plants, res, budget, slots).1;
    assert forall|x: Resource| #[trigger] fin.spec_get(x) >= pool_demand(ordered, x) by {
        assert(one.0.1.spec_get(x) == raised_pool(res, ordered, x));
    }
}

} // verus!
