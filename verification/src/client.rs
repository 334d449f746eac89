//! What the game client does with a click or a server message: how the
//! player's pending choices change, and which move, if any, goes to the
//! server.

use vstd::prelude::*;

use crate::action::Action;
use crate::map::id_views;
use crate::preview::{optimal_build_order, spec_build_order};
use crate::state::{owned_city_ids, GameState, Phase};
use crate::text::{parse_u32, spec_parse_u32, str_eq, trim_str, trimmed};
use crate::types::{can_store, spec_can_add, PlayerColor, PlayerId, PlayerResources, PowerPlant, Resource};

verus! {

/// The player's pending choices in the client.
pub struct ClientUi {
    pub my_id: Option<PlayerId>,
    /// Text of the bid field.
    pub bid_amount: String,
    /// The last refusal the server sent, until the next state arrives.
    pub error_message: Option<String>,
    /// Cities picked for the next build, in picking order.
    pub selected_build_cities: Vec<String>,
    /// The picked cities in the order that builds them cheapest.
    pub build_order: Vec<String>,
    /// Resources staged for the next purchase.
    pub cart: PlayerResources,
}

/// A click of the player or a message of the server.
pub enum UiEvent {
    /// The server named the player; the name and colour to join with, if
    /// the player asked to join.
    Welcome { your_id: PlayerId, join: Option<(String, PlayerColor)> },
    /// A new game state arrived (the state handed along with the event).
    StateUpdate,
    ActionError { message: String },
    StartGame,
    SelectPlant { plant_number: u8 },
    BidAmountChanged { text: String },
    PlaceBid,
    PassAuction,
    AddResourceToCart { resource: Resource },
    RemoveResourceFromCart { resource: Resource },
    ClearResourceCart,
    DoneBuying,
    ToggleBuildCity { city_id: String },
    ClearBuildSelection,
    DoneBuilding,
    PowerCities,
}

/// The client's pending choices as plain values.
pub struct UiView {
    pub my_id: Option<PlayerId>,
    pub bid: Seq<char>,
    pub error: Option<Seq<char>>,
    pub selected: Seq<Seq<char>>,
    pub order: Seq<Seq<char>>,
    pub cart: PlayerResources,
}

impl ClientUi {
    pub open spec fn ui_view(&self) -> UiView {
        UiView {
            my_id: self.my_id,
            bid: self.bid_amount@,
            error: match self.error_message {
                Some(m) => Some(m@),
                None => None,
            },
            selected: id_views(self.selected_build_cities@),
            order: id_views(self.build_order@),
            cart: self.cart,
        }
    }
}

/// `id` heads the queue `remaining`.
pub open spec fn heads(remaining: Seq<PlayerId>, id: PlayerId) -> bool {
    remaining.len() > 0 && remaining[0] == id
}

/// It is the player's turn to build in `state`.
pub open spec fn my_build_turn(state: &GameState, me: Option<PlayerId>) -> bool {
    match (me, state.phase) {
        (Some(id), Phase::BuildCities { remaining }) => heads(remaining@, id),
        _ => false,
    }
}

/// It is the player's turn to buy resources in `state`.
pub open spec fn my_buy_turn(state: &GameState, me: Option<PlayerId>) -> bool {
    match (me, state.phase) {
        (Some(id), Phase::BuyResources { remaining }) => heads(remaining@, id),
        _ => false,
    }
}

/// The empty cart.
pub open spec fn empty_cart() -> PlayerResources {
    PlayerResources { coal: 0, oil: 0, gas: 0, uranium: 0 }
}

/// The fuel a player would hold with the cart bought, if every count stays
/// within a `u8`.
pub open spec fn with_cart(held: PlayerResources, cart: PlayerResources) -> Option<PlayerResources> {
    if held.coal + cart.coal <= 255 && held.oil + cart.oil <= 255 && held.gas + cart.gas <= 255
        && held.uranium + cart.uranium <= 255 {
        Some(PlayerResources {
            coal: (held.coal + cart.coal) as u8,
            oil: (held.oil + cart.oil) as u8,
            gas: (held.gas + cart.gas) as u8,
            uranium: (held.uranium + cart.uranium) as u8,
        })
    } else {
        None
    }
}

/// One more unit of `resource` may go into the cart: the market has it,
/// and the player's plants could store it with the cart bought.
pub open spec fn may_add(state: Option<&GameState>, me: Option<PlayerId>, cart: PlayerResources, resource: Resource) -> bool {
    match (state, me) {
        (Some(s), Some(id)) => match s.spec_player(id) {
            Some(p) => {
                &&& cart.spec_get(resource) + 1 <= s.resources.spec_available(resource)
                &&& match with_cart(p.resources, cart) {
                    Some(sim) => spec_can_add(p.plants@, sim, resource, 1),
                    None => false,
                }
            },
            None => false,
        },
        _ => false,
    }
}

/// The purchases the cart stands for: each resource with a count, in the
/// order coal, oil, gas, uranium.
pub open spec fn cart_purchases(cart: PlayerResources) -> Seq<(Resource, u8)> {
    let a = if cart.coal > 0 { seq![(Resource::Coal, cart.coal)] } else { seq![] };
    let b = if cart.oil > 0 { seq![(Resource::Oil, cart.oil)] } else { seq![] };
    let c = if cart.gas > 0 { seq![(Resource::Gas, cart.gas)] } else { seq![] };
    let d = if cart.uranium > 0 { seq![(Resource::Uranium, cart.uranium)] } else { seq![] };
    a + b + c + d
}

/// The player may not pick the city `id`: they know the state and who they
/// are, and the city holds their house or is full.
pub open spec fn pick_blocked(state: Option<&GameState>, me: Option<PlayerId>, id: Seq<char>) -> bool {
    match (state, me) {
        (Some(s), Some(m)) => match s.map.id_pos(id) {
            Some(i) => s.map.cities@[i].owners@.contains(m) || s.map.cities@[i].owners@.len() >= 3,
            None => false,
        },
        _ => false,
    }
}

/// The first position of `id` in `sel`.
pub open spec fn first_at(sel: Seq<Seq<char>>, id: Seq<char>, i: int) -> bool {
    0 <= i < sel.len() && sel[i] == id && forall|j: int| 0 <= j < i ==> sel[j] != id
}

/// `sel` with `id` taken out (its first occurrence) when it is there, else
/// added at the end.
pub open spec fn toggled(sel: Seq<Seq<char>>, id: Seq<char>) -> Seq<Seq<char>> {
    if sel.contains(id) {
        sel.remove(choose|i: int| first_at(sel, id, i))
    } else {
        sel.push(id)
    }
}

/// The cheapest build order of `selected` for the player in `state`, empty
/// when the client does not know the state or the player yet.
pub open spec fn preview_order(state: Option<&GameState>, me: Option<PlayerId>, selected: Seq<Seq<char>>) -> Seq<Seq<char>> {
    match (state, me) {
        (Some(s), Some(m)) => if selected.len() == 0 {
            seq![]
        } else {
            spec_build_order(&s.map, id_views(owned_city_ids(s.map.cities@, m)), selected)
        },
        _ => seq![],
    }
}

fn is_head(remaining: &Vec<PlayerId>, me: Option<PlayerId>) -> (r: bool)
    ensures
        r == (me matches Some(id) && heads(remaining@, id)),
{
    match me {
        Some(id) => remaining.len() > 0 && remaining[0] == id,
        None => false,
    }
}

fn copy_str(s: &String) -> (r: String)
    ensures
        r@ == s@,
{
    s.as_str().to_owned()
}

fn copy_ids(v: &Vec<String>) -> (r: Vec<String>)
    ensures
        id_views(r@) == id_views(v@),
{
    let mut r: Vec<String> = Vec::new();
    let mut i: usize = 0;
    while i < v.len()
        invariant
            i <= v@.len(),
            id_views(r@) == id_views(v@.subrange(0, i as int)),
        decreases v@.len() - i,
    {
        let c = copy_str(&v[i]);
        let ghost before = r@;
        r.push(c);
        proof {
            assert(id_views(r@) =~= id_views(before).push(v@[i as int]@));
            assert(id_views(v@.subrange(0, i + 1)) =~= id_views(v@.subrange(0, i as int)).push(v@[i as int]@));
        }
        i = i + 1;
    }
    assert(v@.subrange(0, v@.len() as int) =~= v@);
    r
}

fn set_count(cart: PlayerResources, resource: Resource, n: u8) -> (r: PlayerResources)
    ensures
        r == match resource {
            Resource::Coal => PlayerResources { coal: n, ..cart },
            Resource::Oil => PlayerResources { oil: n, ..cart },
            Resource::Gas => PlayerResources { gas: n, ..cart },
            Resource::Uranium => PlayerResources { uranium: n, ..cart },
        },
{
    match resource {
        Resource::Coal => PlayerResources { coal: n, ..cart },
        Resource::Oil => PlayerResources { oil: n, ..cart },
        Resource::Gas => PlayerResources { gas: n, ..cart },
        Resource::Uranium => PlayerResources { uranium: n, ..cart },
    }
}

fn add_cart(held: PlayerResources, cart: PlayerResources) -> (r: Option<PlayerResources>)
    ensures
        r == with_cart(held, cart),
{
    if held.coal as u16 + cart.coal as u16 <= 255 && held.oil as u16 + cart.oil as u16 <= 255
        && held.gas as u16 + cart.gas as u16 <= 255 && held.uranium as u16 + cart.uranium as u16 <= 255 {
        Some(PlayerResources {
            coal: held.coal + cart.coal,
            oil: held.oil + cart.oil,
            gas: held.gas + cart.gas,
            uranium: held.uranium + cart.uranium,
        })
    } else {
        None
    }
}

/// Whether one more unit of `resource` may go into the cart.
fn cart_may_add(state: Option<&GameState>, me: Option<PlayerId>, cart: PlayerResources, resource: Resource) -> (r: bool)
    ensures
        r == may_add(state, me, cart, resource),
{
    let s = match state {
        Some(s) => s,
        None => return false,
    };
    let id = match me {
        Some(id) => id,
        None => return false,
    };
    let p = match s.player(id) {
        Some(p) => p,
        None => return false,
    };
    if (cart.get(resource) as u16) + 1 > s.resources.available(resource) as u16 {
        return false;
    }
    match add_cart(p.resources, cart) {
        Some(sim) => can_store(&p.plants, sim, resource, 1),
        None => false,
    }
}

fn purchases_of(cart: PlayerResources) -> (r: Vec<(Resource, u8)>)
    ensures
        r@ == cart_purchases(cart),
{
    let mut r: Vec<(Resource, u8)> = Vec::new();
    if cart.coal > 0 {
        r.push((Resource::Coal, cart.coal));
    }
    if cart.oil > 0 {
        r.push((Resource::Oil, cart.oil));
    }
    if cart.gas > 0 {
        r.push((Resource::Gas, cart.gas));
    }
    if cart.uranium > 0 {
        r.push((Resource::Uranium, cart.uranium));
    }
    assert(r@ =~= cart_purchases(cart));
    r
}

fn blocked(state: Option<&GameState>, me: Option<PlayerId>, city_id: &String) -> (r: bool)
    requires
        state matches Some(s) ==> s.map.wf(),
    ensures
        r == pick_blocked(state, me, city_id@),
{
    match (state, me) {
        (Some(s), Some(m)) => match s.map.index_of(city_id.as_str()) {
            Some(i) => {
                let owners = &s.map.cities[i].owners;
                let mut mine = false;
                let mut j: usize = 0;
                while j < owners.len()
                    invariant
                        j <= owners@.len(),
                        mine == exists|k: int| 0 <= k < j && owners@[k] == m,
                    decreases owners@.len() - j,
                {
                    if owners[j] == m {
                        mine = true;
                    }
                    j = j + 1;
                }
                proof {
                    if owners@.contains(m) {
                        let k = choose|k: int| 0 <= k < owners@.len() && owners@[k] == m;
                    }
                }
                mine || owners.len() >= 3
            },
            None => false,
        },
        _ => false,
    }
}

fn toggle(sel: &mut Vec<String>, city_id: String)
    ensures
        id_views(final(sel)@) == toggled(id_views(old(sel)@), city_id@),
{
    let ghost ids = id_views(sel@);
    let mut i: usize = 0;
    while i < sel.len()
        invariant
            sel@ == old(sel)@,
            ids == id_views(sel@),
            i <= sel@.len(),
            forall|j: int| 0 <= j < i ==> ids[j] != city_id@,
        decreases sel@.len() - i,
    {
        if str_eq(sel[i].as_str(), city_id.as_str()) {
            proof {
                assert(first_at(ids, city_id@, i as int));
                assert(ids.contains(city_id@));
                let c = choose|c: int| first_at(ids, city_id@, c);
                assert(c == i) by {
                    if c < i {
                        assert(ids[c] != city_id@);
                    } else if c > i {
                        assert(ids[i as int] != city_id@);
                    }
                }
            }
            sel.remove(i);
            proof {
                assert(id_views(sel@) =~= ids.remove(i as int));
            }
            return;
        }
        i = i + 1;
    }
    proof {
        assert(!ids.contains(city_id@)) by {
            if ids.contains(city_id@) {
                let j = choose|j: int| 0 <= j < ids.len() && ids[j] == city_id@;
            }
        }
    }
    sel.push(city_id);
    proof {
        assert(id_views(sel@) =~= ids.push(city_id@));
    }
}

fn refresh_order(state: Option<&GameState>, me: Option<PlayerId>, selected: &Vec<String>) -> (r: Vec<String>)
    requires
        state matches Some(s) ==> s.map.wf(),
    ensures
        id_views(r@) == preview_order(state, me, id_views(selected@)),
{
    match (state, me) {
        (Some(s), Some(m)) => {
            if selected.len() == 0 {
                proof {
                    assert(id_views(selected@).len() == 0);
                }
                let r: Vec<String> = Vec::new();
                proof {
                    assert(id_views(r@) =~= Seq::<Seq<char>>::empty());
                }
                r
            } else {
                let owned = s.player_cities(m);
                optimal_build_order(&s.map, owned.as_slice(), selected.as_slice())
            }
        },
        _ => {
            let r: Vec<String> = Vec::new();
            proof {
                assert(id_views(r@) =~= Seq::<Seq<char>>::empty());
            }
            r
        },
    }
}

fn plant_numbers(plants: &Vec<PowerPlant>) -> (r: Vec<u8>)
    ensures
        r@ == plants@.map_values(|p: PowerPlant| p.number),
{
    let mut r: Vec<u8> = Vec::new();
    let mut i: usize = 0;
    while i < plants.len()
        invariant
            i <= plants@.len(),
            r@ == plants@.subrange(0, i as int).map_values(|p: PowerPlant| p.number),
        decreases plants@.len() - i,
    {
        r.push(plants[i].number);
        i = i + 1;
        assert(r@ =~= plants@.subrange(0, i as int).map_values(|p: PowerPlant| p.number));
    }
    assert(plants@.subrange(0, plants@.len() as int) =~= plants@);
    r
}

/// What one step does: `v` is the view before, `w` after, `r` the move sent.
pub open spec fn ui_step_ok(v: UiView, state: Option<&GameState>, event: UiEvent, w: UiView, r: Option<Action>) -> bool {
    match event {
        UiEvent::Welcome { your_id, join } => {
            &&& w == UiView { my_id: Some(your_id), ..v }
            &&& match join {
                Some((name, color)) => (r matches Some(Action::JoinGame { name: n, color: c }) && n@ == name@ && c == color),
                None => r is None,
            }
        },
        UiEvent::StateUpdate => {
            let build = state matches Some(s) && my_build_turn(s, v.my_id);
            let buy = state matches Some(s) && my_buy_turn(s, v.my_id);
            &&& w == UiView {
                error: None,
                selected: if build { v.selected } else { seq![] },
                order: if build { v.order } else { seq![] },
                cart: if buy { v.cart } else { empty_cart() },
                ..v
            }
            &&& r is None
        },
        UiEvent::ActionError { message } => w == UiView { error: Some(message@), ..v } && r is None,
        UiEvent::StartGame => w == v && r matches Some(Action::StartGame),
        UiEvent::SelectPlant { plant_number } => w == v
            && (r matches Some(Action::SelectPlant { plant_number: n }) && n == plant_number),
        UiEvent::BidAmountChanged { text } => w == UiView { bid: text@, ..v } && r is None,
        UiEvent::PlaceBid => match spec_parse_u32(trimmed(v.bid)) {
            Some(a) => w == UiView { bid: seq![], ..v } && (r matches Some(Action::PlaceBid { amount }) && amount == a),
            None => w == v && r is None,
        },
        UiEvent::PassAuction => w == v && r matches Some(Action::PassAuction),
        UiEvent::AddResourceToCart { resource } => {
            &&& r is None
            &&& if may_add(state, v.my_id, v.cart, resource) {
                w == UiView { cart: v.cart.spec_added(resource, 1), ..v }
            } else {
                w == v
            }
        },
        UiEvent::RemoveResourceFromCart { resource } => {
            &&& r is None
            &&& if v.cart.spec_get(resource) > 0 {
                w == UiView { cart: v.cart.spec_added(resource, -1), ..v }
            } else {
                w == v
            }
        },
        UiEvent::ClearResourceCart => w == UiView { cart: empty_cart(), ..v } && r is None,
        UiEvent::DoneBuying => w == v && if cart_purchases(v.cart).len() == 0 {
            r matches Some(Action::DoneBuying)
        } else {
            (r matches Some(Action::BuyResourceBatch { purchases }) && purchases@ == cart_purchases(v.cart))
        },
        UiEvent::ToggleBuildCity { city_id } => {
            &&& r is None
            &&& if pick_blocked(state, v.my_id, city_id@) {
                w == v
            } else {
                let sel = toggled(v.selected, city_id@);
                w == UiView { selected: sel, order: preview_order(state, v.my_id, sel), ..v }
            }
        },
        UiEvent::ClearBuildSelection => w == UiView { selected: seq![], order: seq![], ..v } && r is None,
        UiEvent::DoneBuilding => w == v && if v.selected.len() == 0 {
            r matches Some(Action::DoneBuilding)
        } else {
            (r matches Some(Action::BuildCities { city_ids }) && id_views(city_ids@) == v.order)
        },
        UiEvent::PowerCities => w == v && match (state, v.my_id) {
            (Some(s), Some(id)) => match s.spec_player(id) {
                Some(p) => (r matches Some(Action::PowerCities { plant_numbers })
                    && plant_numbers@ == p.plants@.map_values(|q: PowerPlant| q.number)),
                None => r is None,
            },
            _ => r is None,
        },
    }
}

/// A click on a city that already holds the player's house is ignored: the
/// pending selection and its preview stay as they were and nothing is sent,
/// so a city of one's own network can never be picked again.
pub proof fn lemma_own_city_click_ignored(v: UiView, s: &GameState, city_id: String, i: int, w: UiView, r: Option<Action>)
    requires
        s.map.wf(),
        0 <= i < s.map.cities@.len(),
        s.map.cities@[i].id@ == city_id@,
        v.my_id matches Some(m) && s.map.cities@[i].owners@.contains(m),
        ui_step_ok(v, Some(s), UiEvent::ToggleBuildCity { city_id }, w, r),
    ensures
        w == v,
        r is None,
{
    let j = choose|j: int| 0 <= j < s.map.cities@.len() && (#[trigger] s.map.cities@[j]).id@ == city_id@;
    assert(s.map.cities@[i].id@ == city_id@);
    assert(s.map.id_pos(city_id@) == Some(i)) by {
        if j != i {
            if j < i {
                assert(s.map.cities[j].id@ != s.map.cities[i].id@);
            } else {
                assert(s.map.cities[i].id@ != s.map.cities[j].id@);
            }
        }
    }
}

/// Handles one click or server message: updates the pending choices and
/// gives the move to send, if any. `state` is the game state the client
/// holds (for `StateUpdate`, the one that just arrived).
pub fn client_step(ui: &mut ClientUi, state: Option<&GameState>, event: UiEvent) -> (r: Option<Action>)
    requires
        state matches Some(s) ==> s.map.wf(),
    ensures
        ui_step_ok(old(ui).ui_view(), state, event, final(ui).ui_view(), r),
{
    let ghost v = ui.ui_view();
    match event {
        UiEvent::Welcome { your_id, join } => {
            ui.my_id = Some(your_id);
            match join {
                Some((name, color)) => Some(Action::JoinGame { name, color }),
                None => None,
            }
        },
        UiEvent::StateUpdate => {
            let (build, buy) = match state {
                Some(s) => match &s.phase {
                    Phase::BuildCities { remaining } => (is_head(remaining, ui.my_id), false),
                    Phase::BuyResources { remaining } => (false, is_head(remaining, ui.my_id)),
                    _ => (false, false),
                },
                None => (false, false),
            };
            if !build {
                ui.selected_build_cities = Vec::new();
                ui.build_order = Vec::new();
                proof {
                    assert(id_views(ui.selected_build_cities@) =~= Seq::<Seq<char>>::empty());
                    assert(id_views(ui.build_order@) =~= Seq::<Seq<char>>::empty());
                }
            }
            if !buy {
                ui.cart = PlayerResources { coal: 0, oil: 0, gas: 0, uranium: 0 };
            }
            ui.error_message = None;
            None
        },
        UiEvent::ActionError { message } => {
            ui.error_message = Some(message);
            None
        },
        UiEvent::StartGame => Some(Action::StartGame),
        UiEvent::SelectPlant { plant_number } => Some(Action::SelectPlant { plant_number }),
        UiEvent::BidAmountChanged { text } => {
            ui.bid_amount = text;
            None
        },
        UiEvent::PlaceBid => {
            let parsed = parse_u32(trim_str(ui.bid_amount.as_str()));
            match parsed {
                Some(amount) => {
                    ui.bid_amount = String::new();
                    proof {
                        assert(ui.bid_amount@ =~= Seq::<char>::empty());
                    }
                    Some(Action::PlaceBid { amount })
                },
                None => None,
            }
        },
        UiEvent::PassAuction => Some(Action::PassAuction),
        UiEvent::AddResourceToCart { resource } => {
            if cart_may_add(state, ui.my_id, ui.cart, resource) {
                let n = ui.cart.get(resource) + 1;
                ui.cart = set_count(ui.cart, resource, n);
                proof {
                    assert(ui.cart == v.cart.spec_added(resource, 1));
                }
            }
            None
        },
        UiEvent::RemoveResourceFromCart { resource } => {
            let c = ui.cart.get(resource);
            if c > 0 {
                ui.cart = set_count(ui.cart, resource, c - 1);
                proof {
                    assert(ui.cart == v.cart.spec_added(resource, -1));
                }
            }
            None
        },
        UiEvent::ClearResourceCart => {
            ui.cart = PlayerResources { coal: 0, oil: 0, gas: 0, uranium: 0 };
            None
        },
        UiEvent::DoneBuying => {
            let purchases = purchases_of(ui.cart);
            if purchases.len() == 0 {
                Some(Action::DoneBuying)
            } else {
                Some(Action::BuyResourceBatch { purchases })
            }
        },
        UiEvent::ToggleBuildCity { city_id } => {
            if blocked(state, ui.my_id, &city_id) {
                return None;
            }
            toggle(&mut ui.selected_build_cities, city_id);
            ui.build_order = refresh_order(state, ui.my_id, &ui.selected_build_cities);
            None
        },
        UiEvent::ClearBuildSelection => {
            ui.selected_build_cities = Vec::new();
            ui.build_order = Vec::new();
            proof {
                assert(id_views(ui.selected_build_cities@) =~= Seq::<Seq<char>>::empty());
                assert(id_views(ui.build_order@) =~= Seq::<Seq<char>>::empty());
            }
            None
        },
        UiEvent::DoneBuilding => {
            if ui.selected_build_cities.len() == 0 {
                Some(Action::DoneBuilding)
            } else {
                Some(Action::BuildCities { city_ids: copy_ids(&ui.build_order) })
            }
        },
        UiEvent::PowerCities => {
            match (state, ui.my_id) {
                (Some(s), Some(id)) => match s.player(id) {
                    Some(p) => Some(Action::PowerCities { plant_numbers: plant_numbers(&p.plants) }),
                    None => None,
                },
                _ => None,
            }
        },
    }
}

} // verus!
