use powergrid::buying::{buy_for_plant, plan_essential_buys, try_buy};
use powergrid::features::{capacity_bump, estimate_firing_cost};
use powergrid::market::ResourceMarket;
use powergrid::types::{PlantKind, Player, PlayerResources, PowerPlant, Resource};

fn coal_plant(number: u8, cost: u8, cities: u8) -> PowerPlant {
    PowerPlant { number, kind: PlantKind::Coal, cost, cities }
}

fn hybrid_plant(number: u8, cost: u8, cities: u8) -> PowerPlant {
    PowerPlant { number, kind: PlantKind::GasOrOil, cost, cities }
}

fn bot_with_money(money: u32) -> Player {
    Player {
        id: 0,
        money,
        plants: vec![],
        resources: PlayerResources { coal: 0, oil: 0, gas: 0, uranium: 0 },
    }
}

fn bought(purchases: &[(Resource, u8)], resource: Resource) -> u8 {
    purchases.iter().filter(|(r, _)| *r == resource).map(|(_, n)| n).sum()
}

#[test]
fn buys_minimum_fuel_when_money_tight() {
    let plant = coal_plant(5, 2, 1);
    let mut player = bot_with_money(20);
    player.plants.push(plant);

    let mut market = ResourceMarket::initial();
    let mut purchases = vec![];
    let mut budget = player.money;

    buy_for_plant(&plant, plant.cost, &mut market, &mut player, &mut budget, &mut purchases);

    let coal_bought = bought(&purchases, Resource::Coal);
    assert!(coal_bought >= plant.cost, "expected >= {} coal, got {}", plant.cost, coal_bought);
}

#[test]
fn falls_back_to_gas_for_hybrid_when_oil_empty() {
    let plant = hybrid_plant(10, 3, 2);
    let mut player = bot_with_money(50);
    player.plants.push(plant);

    let mut market = ResourceMarket::initial();
    market.oil = 0;
    market.gas = 24;

    let mut purchases = vec![];
    let mut budget = player.money;

    buy_for_plant(&plant, plant.cost, &mut market, &mut player, &mut budget, &mut purchases);

    let gas_bought = bought(&purchases, Resource::Gas);
    assert!(gas_bought >= plant.cost, "expected >= {} gas as fallback, got {}", plant.cost, gas_bought);
}

#[test]
fn degrades_gracefully_when_full_topup_unaffordable() {
    let plant = coal_plant(15, 4, 3);
    let mut player = bot_with_money(5);
    player.plants.push(plant);

    let mut market = ResourceMarket::initial();
    let mut purchases = vec![];
    let mut budget = player.money;

    buy_for_plant(&plant, plant.cost * 2, &mut market, &mut player, &mut budget, &mut purchases);

    let coal_bought = bought(&purchases, Resource::Coal);
    assert!(coal_bought > 0, "expected some coal to be bought, got none");
    assert!(coal_bought <= 5, "spent more than budget allows");
}

#[test]
fn hybrid_buys_cheaper_fuel_first() {
    let plant = hybrid_plant(10, 3, 2);
    let mut player = bot_with_money(50);
    player.plants.push(plant);

    let mut market = ResourceMarket::initial();
    market.oil = 6;
    market.gas = 24;

    let mut purchases = vec![];
    let mut budget = player.money;

    buy_for_plant(&plant, plant.cost, &mut market, &mut player, &mut budget, &mut purchases);

    let gas_bought = bought(&purchases, Resource::Gas);
    let oil_bought = bought(&purchases, Resource::Oil);
    assert!(
        gas_bought >= plant.cost,
        "expected to buy >= {} gas (cheaper), got {} gas and {} oil",
        plant.cost,
        gas_bought,
        oil_bought
    );
    assert_eq!(oil_bought, 0, "should not buy oil when gas is cheaper (got {} oil)", oil_bought);
}

#[test]
fn estimate_firing_cost_prices_cheapest_units_first() {
    let plant = coal_plant(5, 2, 1);
    let market = ResourceMarket::initial();
    let cost = estimate_firing_cost(&plant, &market);
    assert_eq!(cost, 4, "2 coal from flush market should cost 4 (slots 22+21 = 2+2)");
}

#[test]
fn estimate_firing_cost_wind_is_zero() {
    let wind = PowerPlant { number: 44, kind: PlantKind::Wind, cost: 0, cities: 2 };
    let market = ResourceMarket::initial();
    assert_eq!(estimate_firing_cost(&wind, &market), 0);
}

#[test]
fn estimate_firing_cost_hybrid_prefers_more_available_resource() {
    let hybrid = PowerPlant { number: 10, kind: PlantKind::GasOrOil, cost: 2, cities: 2 };
    let mut market = ResourceMarket::initial();
    market.gas = 18;
    market.oil = 1;

    let cost_actual = estimate_firing_cost(&hybrid, &market);
    assert_eq!(cost_actual, 6, "hybrid should price the more available (gas) resource: got {cost_actual}");
}

fn gas_plant(number: u8, cost: u8, cities: u8) -> PowerPlant {
    PowerPlant { number, kind: PlantKind::Gas, cost, cities }
}

/// Plans one firing of the whole rack (every slot selected).
fn plan_full_rack(player: &Player, market: ResourceMarket) -> Vec<(Resource, u8)> {
    let mut sim_market = market;
    let mut sim_player = player.clone();
    let mut budget = player.money;
    let mut purchases = vec![];
    plan_essential_buys(&mut sim_market, &mut sim_player, &mut budget, &mut purchases, 0b111);
    purchases
}

#[test]
fn essential_pass_ignores_city_reserve() {
    let plant = coal_plant(5, 2, 1);
    let mut player = bot_with_money(22);
    player.plants.push(plant);

    let mut market = ResourceMarket::initial();
    let mut purchases = vec![];
    let mut budget = player.money;

    buy_for_plant(&plant, plant.cost, &mut market, &mut player, &mut budget, &mut purchases);

    let coal_bought = bought(&purchases, Resource::Coal);
    assert!(coal_bought >= plant.cost, "essential pass should buy at least {} coal (got {})", plant.cost, coal_bought);
}

#[test]
fn two_coal_plants_buy_combined_fuel() {
    let mut player = bot_with_money(168);
    player.plants.push(coal_plant(33, 3, 6));
    player.plants.push(coal_plant(29, 2, 5));

    let purchases = plan_full_rack(&player, ResourceMarket::initial());
    let coal_bought = bought(&purchases, Resource::Coal);
    assert!(coal_bought >= 5, "expected combined coal purchase >= 5 (3 + 2) so both plants can fire, got {}", coal_bought);
}

#[test]
fn two_coal_plus_hybrid_combined_targets() {
    let mut player = bot_with_money(300);
    player.plants.push(coal_plant(10, 3, 6));
    player.plants.push(coal_plant(11, 2, 5));
    player.plants.push(hybrid_plant(12, 2, 4));

    let purchases = plan_full_rack(&player, ResourceMarket::initial());
    let coal_bought = bought(&purchases, Resource::Coal);
    let gasoil_bought = bought(&purchases, Resource::Gas) + bought(&purchases, Resource::Oil);
    assert!(coal_bought >= 5, "expected combined coal purchase >= 5 (3 + 2), got {}", coal_bought);
    assert!(gasoil_bought >= 2, "expected combined gas+oil purchase >= 2 for the hybrid, got {}", gasoil_bought);
}

#[test]
fn pure_gas_and_hybrid_share_pool() {
    let mut player = bot_with_money(200);
    player.plants.push(gas_plant(20, 2, 4));
    player.plants.push(hybrid_plant(21, 3, 5));

    let market = ResourceMarket { coal: 23, gas: 18, oil: 2, uranium: 2 };
    let purchases = plan_full_rack(&player, market);
    let gas_bought = bought(&purchases, Resource::Gas);
    let gasoil_bought = gas_bought + bought(&purchases, Resource::Oil);
    assert!(gas_bought >= 2, "pure gas plant must be guaranteed its 2 gas, got {}", gas_bought);
    assert!(gasoil_bought >= 5, "expected combined gas+oil purchase >= 5 (2 pure + 3 hybrid), got {}", gasoil_bought);
}

#[test]
fn plan_exact_purchases_for_two_coal_plants() {
    let mut player = bot_with_money(168);
    player.plants.push(coal_plant(33, 3, 6));
    player.plants.push(coal_plant(29, 2, 5));
    // Most cities first: #33 raises coal to 3, then #29 to 5.
    let purchases = plan_full_rack(&player, ResourceMarket::initial());
    assert_eq!(purchases, vec![(Resource::Coal, 3), (Resource::Coal, 2)]);
}

#[test]
fn plan_counts_fuel_already_held() {
    let mut player = bot_with_money(100);
    player.plants.push(coal_plant(10, 3, 2));
    player.resources.coal = 2;
    let purchases = plan_full_rack(&player, ResourceMarket::initial());
    assert_eq!(purchases, vec![(Resource::Coal, 1)]);
}

#[test]
fn plan_with_empty_mask_buys_nothing() {
    let mut player = bot_with_money(100);
    player.plants.push(coal_plant(10, 3, 2));
    let mut market = ResourceMarket::initial();
    let mut sim_player = player.clone();
    let mut budget = player.money;
    let mut purchases = vec![];
    plan_essential_buys(&mut market, &mut sim_player, &mut budget, &mut purchases, 0);
    assert!(purchases.is_empty());
    assert_eq!(budget, 100);
    assert_eq!(market, ResourceMarket::initial());
}

#[test]
fn plan_selects_plants_by_slot_in_number_order() {
    let mut player = bot_with_money(100);
    player.plants.push(gas_plant(20, 2, 4));
    player.plants.push(coal_plant(10, 3, 2));
    // Slot 0 is the lower-numbered plant (#10, coal).
    let mut market = ResourceMarket::initial();
    let mut sim_player = player.clone();
    let mut budget = player.money;
    let mut purchases = vec![];
    plan_essential_buys(&mut market, &mut sim_player, &mut budget, &mut purchases, 0b01);
    assert_eq!(purchases, vec![(Resource::Coal, 3)]);
}

#[test]
fn try_buy_spends_the_cheapest_units() {
    let mut player = bot_with_money(100);
    player.plants.push(coal_plant(10, 3, 2));
    let mut market = ResourceMarket::initial();
    let mut budget = 100u32;
    let mut purchases = vec![];
    try_buy(Resource::Coal, 3, &mut market, &mut player, &mut budget, &mut purchases);
    assert_eq!(purchases, vec![(Resource::Coal, 3)]);
    assert_eq!(player.resources.coal, 3);
    assert_eq!(market.coal, 20);
    // 23 coal on sale: the three cheapest sit in price band 2 (slots 22, 21) and 3 (slot 20).
    assert_eq!(budget, 100 - 7);
}

#[test]
fn try_buy_stops_at_the_budget() {
    let mut player = bot_with_money(5);
    player.plants.push(coal_plant(10, 3, 2));
    let mut market = ResourceMarket::initial();
    let mut budget = 5u32;
    let mut purchases = vec![];
    try_buy(Resource::Coal, 6, &mut market, &mut player, &mut budget, &mut purchases);
    assert_eq!(purchases, vec![(Resource::Coal, 2)]);
    assert_eq!(budget, 1);
}

#[test]
fn full_rack_capacity_bump_is_the_delta_over_the_discard() {
    let mut player = bot_with_money(200);
    player.plants.push(coal_plant(5, 2, 5));
    player.plants.push(coal_plant(7, 3, 5));
    player.plants.push(coal_plant(9, 4, 5));
    let candidate = coal_plant(20, 3, 6);
    assert_eq!(capacity_bump(&candidate, &player), 1, "net capacity bump should be the delta over the discard");
    let mut small = bot_with_money(200);
    small.plants.push(coal_plant(5, 2, 5));
    assert_eq!(capacity_bump(&candidate, &small), 6, "with room on the rack the whole plant counts");
}
