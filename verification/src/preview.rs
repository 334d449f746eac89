//! Ordering a multi-city build for its preview: the route cost of building
//! cities one after another, and the order that makes it cheapest (every
//! order, by Heap's algorithm, for up to seven cities; cheapest-next beyond).

use vstd::prelude::*;
use vstd::pervasive::VecAdditionalExecFns;

use crate::map::{id_views, GameMap};

verus! {

/// Route cost of building `city` next from the network `owned` (0 when no
/// route exists).
pub open spec fn step_route(map: &GameMap, owned: Seq<Seq<char>>, city: Seq<char>) -> nat {
    match map.spec_connection_cost(owned, city) {
        Some(c) => c as nat,
        None => 0,
    }
}

/// Route cost of building the first `i` cities of `order`, each from the
/// network grown by the ones before.
pub open spec fn route_prefix(map: &GameMap, owned: Seq<Seq<char>>, order: Seq<Seq<char>>, i: int) -> nat
    decreases i,
{
    if i <= 0 {
        0
    } else {
        route_prefix(map, owned, order, i - 1) + step_route(map, owned + order.take(i - 1), order[i - 1])
    }
}

/// Route cost of building all of `order`, kept within `u32`.
pub open spec fn route_total(map: &GameMap, owned: Seq<Seq<char>>, order: Seq<Seq<char>>) -> u32 {
    let s = route_prefix(map, owned, order, order.len() as int);
    if s <= u32::MAX { s as u32 } else { u32::MAX }
}

proof fn lemma_views_push(v: Seq<String>, x: String)
    ensures
        id_views(v.push(x)) == id_views(v).push(x@),
{
    assert(id_views(v.push(x)) =~= id_views(v).push(x@));
}

fn copy_strings(v: &Vec<String>) -> (r: Vec<String>)
    ensures
        id_views(r@) == id_views(v@),
{
    let mut out: Vec<String> = Vec::new();
    let mut i: usize = 0;
    while i < v.len()
        invariant
            i <= v@.len(),
            out@.len() == i,
            forall|j: int| 0 <= j < i ==> (#[trigger] out@[j])@ == v@[j]@,
        decreases v@.len() - i,
    {
        out.push(v[i].as_str().to_owned());
        i = i + 1;
    }
    assert(id_views(out@) =~= id_views(v@));
    out
}

/// The route cost of building `order` one city after another from `owned`.
pub fn simulate_route_cost(map: &GameMap, owned: &[String], order: &[String]) -> (r: u32)
    requires
        map.wf(),
    ensures
        r == route_total(map, id_views(owned@), id_views(order@)),
{
    let ghost own = id_views(owned@);
    let ghost ord = id_views(order@);
    let mut current: Vec<String> = Vec::new();
    let mut i: usize = 0;
    while i < owned.len()
        invariant
            i <= owned@.len(),
            id_views(current@) == own.take(i as int),
            own == id_views(owned@),
        decreases owned@.len() - i,
    {
        let ghost before = current@;
        current.push(owned[i].as_str().to_owned());
        proof {
            lemma_views_push(before, current@.last());
            assert(own.take(i + 1) =~= own.take(i as int).push(own[i as int]));
        }
        i = i + 1;
    }
    assert(own.take(owned@.len() as int) =~= own);
    let mut total: u32 = 0;
    let mut j: usize = 0;
    while j < order.len()
        invariant
            map.wf(),
            j <= order@.len(),
            ord == id_views(order@),
            id_views(current@) == own + ord.take(j as int),
            total as nat == (if route_prefix(map, own, ord, j as int) <= u32::MAX {
                route_prefix(map, own, ord, j as int)
            } else {
                u32::MAX as nat
            }),
        decreases order@.len() - j,
    {
        let c = match map.connection_cost_to(current.as_slice(), order[j].as_str()) {
            Some(c) => c,
            None => 0,
        };
        proof {
            assert(c as nat == step_route(map, own + ord.take(j as int), ord[j as int]));
        }
        total = total.saturating_add(c);
        let ghost before = current@;
        current.push(order[j].as_str().to_owned());
        proof {
            lemma_views_push(before, current@.last());
            assert(own + ord.take(j + 1) =~= (own + ord.take(j as int)).push(ord[j as int]));
        }
        j = j + 1;
    }
    proof {
        assert(ord.len() == order@.len());
    }
    total
}

// ---------------------------------------------------------------------------
// Heap's algorithm
// ---------------------------------------------------------------------------

pub open spec fn swapped(s: Seq<Seq<char>>, i: int, j: int) -> Seq<Seq<char>> {
    s.update(i, s[j]).update(j, s[i])
}

/// The orders Heap's algorithm visits permuting the first `k` cities of
/// `a`, in visiting order, and the order it leaves behind.
pub open spec fn heap_run(a: Seq<Seq<char>>, k: int) -> (Seq<Seq<Seq<char>>>, Seq<Seq<char>>)
    decreases k, 1int, 0int,
{
    if k <= 1 {
        (seq![a], a)
    } else {
        heap_loop(a, k, 0)
    }
}

/// Rounds `i..k` of the loop at level `k`: permute the first `k - 1`, then
/// swap element `i` (for even `k`) or the first (for odd `k`) with the
/// `k`-th.
pub open spec fn heap_loop(a: Seq<Seq<char>>, k: int, i: int) -> (Seq<Seq<Seq<char>>>, Seq<Seq<char>>)
    decreases k, 0int, k - i,
{
    if i >= k || k <= 1 {
        (seq![], a)
    } else {
        let inner = heap_run(a, k - 1);
        let b = if k % 2 == 0 { swapped(inner.1, i, k - 1) } else { swapped(inner.1, 0, k - 1) };
        let rest = heap_loop(b, k, i + 1);
        (inner.0 + rest.0, rest.1)
    }
}

/// The best order so far as (cost, order): a visited order replaces it
/// only when strictly cheaper.
pub open spec fn pick_from(
    map: &GameMap,
    owned: Seq<Seq<char>>,
    best: (u32, Seq<Seq<char>>),
    visits: Seq<Seq<Seq<char>>>,
) -> (u32, Seq<Seq<char>>)
    decreases visits.len(),
{
    if visits.len() == 0 {
        best
    } else {
        let c = route_total(map, owned, visits[0]);
        let next = if c < best.0 { (c, visits[0]) } else { best };
        pick_from(map, owned, next, visits.drop_first())
    }
}

proof fn lemma_pick_concat(
    map: &GameMap,
    owned: Seq<Seq<char>>,
    best: (u32, Seq<Seq<char>>),
    v1: Seq<Seq<Seq<char>>>,
    v2: Seq<Seq<Seq<char>>>,
)
    ensures
        pick_from(map, owned, best, v1 + v2) == pick_from(map, owned, pick_from(map, owned, best, v1), v2),
    decreases v1.len(),
{
    if v1.len() > 0 {
        let c = route_total(map, owned, v1[0]);
        let next = if c < best.0 { (c, v1[0]) } else { best };
        assert((v1 + v2).drop_first() =~= v1.drop_first() + v2);
        assert((v1 + v2)[0] == v1[0]);
        lemma_pick_concat(map, owned, next, v1.drop_first(), v2);
    } else {
        assert(v1 + v2 =~= v2);
    }
}

fn swap_strings(arr: &mut Vec<String>, i: usize, j: usize)
    requires
        i < old(arr)@.len(),
        j < old(arr)@.len(),
    ensures
        final(arr)@.len() == old(arr)@.len(),
        id_views(final(arr)@) == swapped(id_views(old(arr)@), i as int, j as int),
{
    let ghost a = id_views(arr@);
    if i == j {
        assert(swapped(a, i as int, j as int) =~= a);
        return;
    }
    let mut tmp = String::new();
    arr.set_and_swap(i, &mut tmp);
    arr.set_and_swap(j, &mut tmp);
    arr.set_and_swap(i, &mut tmp);
    assert(id_views(arr@) =~= swapped(a, i as int, j as int));
}

/// Visits, by Heap's algorithm, every order of the first `k` cities of
/// `arr`, keeping in `best_cost` and `best_order` the first cheapest.
fn heap_visit(
    map: &GameMap,
    owned: &[String],
    arr: &mut Vec<String>,
    k: usize,
    best_cost: &mut u32,
    best_order: &mut Vec<String>,
)
    requires
        map.wf(),
        1 <= k <= old(arr)@.len(),
    ensures
        final(arr)@.len() == old(arr)@.len(),
        id_views(final(arr)@) == heap_run(id_views(old(arr)@), k as int).1,
        (*final(best_cost), id_views(final(best_order)@)) == pick_from(
            map,
            id_views(owned@),
            (*old(best_cost), id_views(old(best_order)@)),
            heap_run(id_views(old(arr)@), k as int).0,
        ),
    decreases k, 1int, 0int,
{
    let ghost a0 = id_views(arr@);
    let ghost own = id_views(owned@);
    let ghost b0 = (*best_cost, id_views(best_order@));
    if k == 1 {
        let cost = simulate_route_cost(map, owned, arr.as_slice());
        if cost < *best_cost {
            *best_cost = cost;
            *best_order = copy_strings(arr);
        }
        proof {
            let vs = seq![a0];
            assert(heap_run(a0, 1) == (vs, a0));
            assert(vs.drop_first() =~= Seq::<Seq<Seq<char>>>::empty());
            let c = route_total(map, own, a0);
            let next = if c < b0.0 { (c, a0) } else { b0 };
            assert(pick_from(map, own, b0, vs) == pick_from(map, own, next, vs.drop_first()));
            assert(pick_from(map, own, next, Seq::<Seq<Seq<char>>>::empty()) == next);
        }
        return;
    }
    let mut i: usize = 0;
    let ghost mut done: Seq<Seq<Seq<char>>> = seq![];
    while i < k
        invariant
            map.wf(),
            2 <= k <= arr@.len(),
            arr@.len() == old(arr)@.len(),
            i <= k,
            own == id_views(owned@),
            a0 == id_views(old(arr)@),
            done + heap_loop(id_views(arr@), k as int, i as int).0 == heap_loop(a0, k as int, 0).0,
            heap_loop(id_views(arr@), k as int, i as int).1 == heap_loop(a0, k as int, 0).1,
            (*best_cost, id_views(best_order@)) == pick_from(map, own, b0, done),
        decreases k - i,
    {
        let ghost cur = id_views(arr@);
        let ghost b1 = (*best_cost, id_views(best_order@));
        heap_visit(map, owned, arr, k - 1, best_cost, best_order);
        let ghost inner = heap_run(cur, k - 1);
        if k % 2 == 0 {
            swap_strings(arr, i, k - 1);
        } else {
            swap_strings(arr, 0, k - 1);
        }
        proof {
            lemma_pick_concat(map, own, b0, done, inner.0);
            assert(done + inner.0 + heap_loop(id_views(arr@), k as int, i + 1).0 =~= done + heap_loop(cur, k as int, i as int).0);
            done = done + inner.0;
        }
        i = i + 1;
    }
    proof {
        assert(heap_loop(id_views(arr@), k as int, k as int).0 =~= seq![]);
        assert(done =~= done + seq![]);
    }
}

// ---------------------------------------------------------------------------
// The preview's order
// ---------------------------------------------------------------------------

/// Key of a remaining city for the cheapest-next walk: its route cost from
/// `owned`, or `u32::MAX` when it cannot be reached.
pub open spec fn next_key(map: &GameMap, owned: Seq<Seq<char>>, city: Seq<char>) -> u32 {
    match map.spec_connection_cost(owned, city) {
        Some(c) => c,
        None => u32::MAX,
    }
}

/// The first of the first `j` cities of `rest` with the least key.
pub open spec fn first_cheapest(map: &GameMap, owned: Seq<Seq<char>>, rest: Seq<Seq<char>>, j: int) -> int
    decreases j,
{
    if j <= 1 {
        0
    } else {
        let b = first_cheapest(map, owned, rest, j - 1);
        if next_key(map, owned, rest[j - 1]) < next_key(map, owned, rest[b]) { j - 1 } else { b }
    }
}

/// The cheapest-next walk: repeatedly take the remaining city cheapest to
/// reach from the network grown so far (the first among equals).
pub open spec fn greedy_order(map: &GameMap, owned: Seq<Seq<char>>, rest: Seq<Seq<char>>) -> Seq<Seq<char>>
    decreases rest.len(),
{
    if rest.len() == 0 {
        seq![]
    } else {
        let b = first_cheapest(map, owned, rest, rest.len() as int);
        if 0 <= b < rest.len() {
            seq![rest[b]] + greedy_order(map, owned.push(rest[b]), rest.remove(b))
        } else {
            seq![]
        }
    }
}

proof fn lemma_first_cheapest_range(map: &GameMap, owned: Seq<Seq<char>>, rest: Seq<Seq<char>>, j: int)
    requires
        1 <= j,
    ensures
        0 <= first_cheapest(map, owned, rest, j) < j,
    decreases j,
{
    if j > 1 {
        lemma_first_cheapest_range(map, owned, rest, j - 1);
    }
}

/// The order the preview builds `selected` in: as given for one city; the
/// first cheapest order Heap's algorithm visits for up to seven (starting
/// from the given order, which is kept when every order costs `u32::MAX`);
/// the cheapest-next walk beyond.
pub open spec fn spec_build_order(map: &GameMap, owned: Seq<Seq<char>>, selected: Seq<Seq<char>>) -> Seq<Seq<char>> {
    if selected.len() <= 1 {
        selected
    } else if selected.len() <= 7 {
        pick_from(map, owned, (u32::MAX, selected), heap_run(selected, selected.len() as int).0).1
    } else {
        greedy_order(map, owned, selected)
    }
}

/// The order that makes building `selected` from `owned` cheapest.
pub fn optimal_build_order(map: &GameMap, owned: &[String], selected: &[String]) -> (r: Vec<String>)
    requires
        map.wf(),
    ensures
        id_views(r@) == spec_build_order(map, id_views(owned@), id_views(selected@)),
{
    let mut arr: Vec<String> = Vec::new();
    let mut i: usize = 0;
    while i < selected.len()
        invariant
            i <= selected@.len(),
            arr@.len() == i,
            forall|j: int| 0 <= j < i ==> (#[trigger] arr@[j])@ == selected@[j]@,
        decreases selected@.len() - i,
    {
        arr.push(selected[i].as_str().to_owned());
        i = i + 1;
    }
    proof {
        assert(id_views(arr@) =~= id_views(selected@));
    }
    let n = arr.len();
    if n <= 1 {
        return arr;
    }
    if n <= 7 {
        let mut best_cost: u32 = u32::MAX;
        let mut best_order = copy_strings(&arr);
        heap_visit(map, owned, &mut arr, n, &mut best_cost, &mut best_order);
        return best_order;
    }
    // Cheapest-next walk.
    let ghost own0 = id_views(owned@);
    let mut remaining = arr;
    let mut current: Vec<String> = Vec::new();
    let mut j: usize = 0;
    while j < owned.len()
        invariant
            j <= owned@.len(),
            id_views(current@) == own0.take(j as int),
            own0 == id_views(owned@),
        decreases owned@.len() - j,
    {
        let ghost before = current@;
        current.push(owned[j].as_str().to_owned());
        proof {
            lemma_views_push(before, current@.last());
            assert(own0.take(j + 1) =~= own0.take(j as int).push(own0[j as int]));
        }
        j = j + 1;
    }
    assert(own0.take(owned@.len() as int) =~= own0);
    let mut order: Vec<String> = Vec::new();
    let ghost whole = spec_build_order(map, own0, id_views(selected@));
    while remaining.len() > 0
        invariant
            map.wf(),
            id_views(order@) + greedy_order(map, id_views(current@), id_views(remaining@)) == whole,
        decreases remaining@.len(),
    {
        let ghost cur = id_views(current@);
        let ghost rest = id_views(remaining@);
        let mut best: usize = 0;
        let mut best_key: u32 = match map.connection_cost_to(current.as_slice(), remaining[0].as_str()) {
            Some(c) => c,
            None => u32::MAX,
        };
        let mut t: usize = 1;
        while t < remaining.len()
            invariant
                map.wf(),
                cur == id_views(current@),
                rest == id_views(remaining@),
                1 <= t <= remaining@.len(),
                best == first_cheapest(map, cur, rest, t as int),
                0 <= best < t,
                best_key == next_key(map, cur, rest[best as int]),
            decreases remaining@.len() - t,
        {
            proof {
                lemma_first_cheapest_range(map, cur, rest, t as int);
            }
            let key = match map.connection_cost_to(current.as_slice(), remaining[t].as_str()) {
                Some(c) => c,
                None => u32::MAX,
            };
            if key < best_key {
                best = t;
                best_key = key;
            }
            t = t + 1;
        }
        proof {
            lemma_first_cheapest_range(map, cur, rest, rest.len() as int);
        }
        let city = remaining.remove(best);
        proof {
            assert(id_views(remaining@) =~= rest.remove(best as int));
        }
        current.push(city.as_str().to_owned());
        order.push(city);
        proof {
            assert(id_views(current@) =~= cur.push(rest[best as int]));
            assert(id_views(order@) =~= id_views(order@.drop_last()).push(rest[best as int]));
            assert(id_views(order@) + greedy_order(map, id_views(current@), id_views(remaining@))
                =~= id_views(order@.drop_last()) + greedy_order(map, cur, rest));
        }
    }
    proof {
        assert(greedy_order(map, id_views(current@), id_views(remaining@)) =~= seq![]);
        assert(id_views(order@) =~= id_views(order@) + seq![]);
    }
    order
}

// ---------------------------------------------------------------------------
// Laws of the preview's order
// ---------------------------------------------------------------------------

proof fn lemma_heap_first_visit(a: Seq<Seq<char>>, k: int)
    requires
        k >= 1,
        k <= a.len(),
    ensures
        heap_run(a, k).0.len() > 0,
        heap_run(a, k).0[0] == a,
    decreases k,
{
    if k > 1 {
        lemma_heap_first_visit(a, k - 1);
        assert(heap_run(a, k) == heap_loop(a, k, 0));
    }
}

proof fn lemma_swapped_permutes(s: Seq<Seq<char>>, i: int, j: int)
    requires
        0 <= i < s.len(),
        0 <= j < s.len(),
    ensures
        swapped(s, i, j).to_multiset() == s.to_multiset(),
        swapped(s, i, j).len() == s.len(),
{
    crate::encoding::lemma_swap_multiset(s, i, j);
}

/// Every order Heap's algorithm visits, and the order it leaves, is a
/// rearrangement of the cities it started from.
proof fn lemma_heap_run_permutes(a: Seq<Seq<char>>, k: int)
    requires
        k <= a.len(),
    ensures
        forall|x: int| 0 <= x < heap_run(a, k).0.len() ==> (#[trigger] heap_run(a, k).0[x]).to_multiset() == a.to_multiset()
            && heap_run(a, k).0[x].len() == a.len(),
        heap_run(a, k).1.to_multiset() == a.to_multiset(),
        heap_run(a, k).1.len() == a.len(),
    decreases k, 1int, 0int,
{
    if k > 1 {
        lemma_heap_loop_permutes(a, k, 0);
    }
}

proof fn lemma_heap_loop_permutes(a: Seq<Seq<char>>, k: int, i: int)
    requires
        k <= a.len(),
        0 <= i,
    ensures
        forall|x: int| 0 <= x < heap_loop(a, k, i).0.len() ==> (#[trigger] heap_loop(a, k, i).0[x]).to_multiset()
            == a.to_multiset() && heap_loop(a, k, i).0[x].len() == a.len(),
        heap_loop(a, k, i).1.to_multiset() == a.to_multiset(),
        heap_loop(a, k, i).1.len() == a.len(),
    decreases k, 0int, k - i,
{
    if !(i >= k || k <= 1) {
        lemma_heap_run_permutes(a, k - 1);
        let inner = heap_run(a, k - 1);
        let b = if k % 2 == 0 { swapped(inner.1, i, k - 1) } else { swapped(inner.1, 0, k - 1) };
        if k % 2 == 0 {
            lemma_swapped_permutes(inner.1, i, k - 1);
        } else {
            lemma_swapped_permutes(inner.1, 0, k - 1);
        }
        lemma_heap_loop_permutes(b, k, i + 1);
        let rest = heap_loop(b, k, i + 1);
        let all = inner.0 + rest.0;
        assert forall|x: int| 0 <= x < all.len() implies (#[trigger] all[x]).to_multiset() == a.to_multiset() && all[x].len() == a.len() by {
            if x < inner.0.len() {
                assert(all[x] == inner.0[x]);
            } else {
                assert(all[x] == rest.0[x - inner.0.len()]);
            }
        }
    }
}

proof fn lemma_pick_bounds(map: &GameMap, owned: Seq<Seq<char>>, best: (u32, Seq<Seq<char>>), visits: Seq<Seq<Seq<char>>>)
    requires
        best.0 == u32::MAX || best.0 == route_total(map, owned, best.1),
    ensures
        pick_from(map, owned, best, visits).0 <= best.0,
        forall|x: int| 0 <= x < visits.len() ==> pick_from(map, owned, best, visits).0 <= route_total(map, owned, #[trigger] visits[x]),
        pick_from(map, owned, best, visits).0 == u32::MAX || pick_from(map, owned, best, visits).0
            == route_total(map, owned, pick_from(map, owned, best, visits).1),
        pick_from(map, owned, best, visits).1 == best.1 || exists|x: int| 0 <= x < visits.len()
            && pick_from(map, owned, best, visits).1 == #[trigger] visits[x],
    decreases visits.len(),
{
    if visits.len() > 0 {
        let c = route_total(map, owned, visits[0]);
        let next = if c < best.0 { (c, visits[0]) } else { best };
        lemma_pick_bounds(map, owned, next, visits.drop_first());
        let r = pick_from(map, owned, next, visits.drop_first());
        assert forall|x: int| 0 <= x < visits.len() implies r.0 <= route_total(map, owned, #[trigger] visits[x]) by {
            if x > 0 {
                assert(visits[x] == visits.drop_first()[x - 1]);
            }
        }
        if r.1 != next.1 {
            let y = choose|y: int| 0 <= y < visits.drop_first().len() && r.1 == #[trigger] visits.drop_first()[y];
            assert(r.1 == visits[y + 1]);
        } else if next.1 != best.1 {
            assert(r.1 == visits[0]);
        }
    }
}

/// For two to seven cities the preview's order is a rearrangement of the
/// cities selected, and its route cost is no more than that of the order
/// in which they were selected, nor than any order Heap's algorithm visits.
pub proof fn lemma_build_order_no_worse(map: &GameMap, owned: Seq<Seq<char>>, selected: Seq<Seq<char>>)
    requires
        2 <= selected.len() <= 7,
    ensures
        spec_build_order(map, owned, selected).to_multiset() == selected.to_multiset(),
        route_total(map, owned, spec_build_order(map, owned, selected)) <= route_total(map, owned, selected),
        forall|x: int| 0 <= x < heap_run(selected, selected.len() as int).0.len() ==> route_total(map, owned, spec_build_order(map, owned, selected))
            <= route_total(map, owned, #[trigger] heap_run(selected, selected.len() as int).0[x]),
{
    let k = selected.len() as int;
    let visits = heap_run(selected, k).0;
    lemma_heap_first_visit(selected, k);
    lemma_heap_run_permutes(selected, k);
    lemma_pick_bounds(map, owned, (u32::MAX, selected), visits);
    let r = pick_from(map, owned, (u32::MAX, selected), visits);
    assert(r.0 <= route_total(map, owned, visits[0]));
    if r.1 != selected {
        let x = choose|x: int| 0 <= x < visits.len() && r.1 == #[trigger] visits[x];
        assert(visits[x].to_multiset() == selected.to_multiset());
    }
}

// ---------------------------------------------------------------------------
// Heap's algorithm visits every order
// ---------------------------------------------------------------------------

/// `p` is `a` with only its first `k` entries rearranged.
pub open spec fn rearranges(p: Seq<Seq<char>>, a: Seq<Seq<char>>, k: int) -> bool {
    &&& p.len() == a.len()
    &&& p.to_multiset() == a.to_multiset()
    &&& p.subrange(k, p.len() as int) == a.subrange(k, a.len() as int)
}

/// `a` with its first `k` entries rotated right by `i` places (`0 <= i <= k`).
pub open spec fn rotated(a: Seq<Seq<char>>, k: int, i: int) -> Seq<Seq<char>> {
    Seq::new(a.len(), |t: int| if t >= k { a[t] } else if t >= i { a[t - i] } else { a[t - i + k] })
}

/// The order at the start of round `i` at an even level `k`.
pub open spec fn even_round(a: Seq<Seq<char>>, k: int, i: int) -> Seq<Seq<char>> {
    if i == 0 {
        a
    } else {
        Seq::new(a.len(), |t: int| if t >= k { a[t] } else if t == 0 { a[k - 1] } else if t < i { a[t - 1] } else if t < k - 1 { a[t] } else { a[i - 1] })
    }
}

/// The order at the start of round `i` of level `k`.
pub open spec fn round_start(a: Seq<Seq<char>>, k: int, i: int) -> Seq<Seq<char>> {
    if k % 2 == 0 { even_round(a, k, i) } else { rotated(a, k, i) }
}

/// The order level `k` leaves: unchanged at an odd level, rotated right by
/// one at an even one.
pub open spec fn final_state(a: Seq<Seq<char>>, k: int) -> Seq<Seq<char>> {
    if k % 2 == 1 || k <= 1 { a } else { rotated(a, k, 1) }
}

proof fn lemma_round_step(a: Seq<Seq<char>>, k: int, i: int)
    requires
        2 <= k <= a.len(),
        0 <= i < k,
    ensures
        (if k % 2 == 0 {
            swapped(final_state(round_start(a, k, i), k - 1), i, k - 1)
        } else {
            swapped(final_state(round_start(a, k, i), k - 1), 0, k - 1)
        }) == round_start(a, k, i + 1),
{
    let b = round_start(a, k, i);
    let f = final_state(b, k - 1);
    if k % 2 == 0 {
        assert(f == b);
        let nx = swapped(b, i, k - 1);
        assert(nx =~= round_start(a, k, i + 1));
    } else {
        assert(f == rotated(b, k - 1, 1));
        let nx = swapped(f, 0, k - 1);
        assert(nx =~= round_start(a, k, i + 1));
    }
}

proof fn lemma_round_start_ends(a: Seq<Seq<char>>, k: int)
    requires
        2 <= k <= a.len(),
    ensures
        round_start(a, k, 0) == a,
        round_start(a, k, k) == final_state(a, k),
{
    assert(rotated(a, k, 0) =~= a);
    if k % 2 == 0 {
        assert(even_round(a, k, k) =~= rotated(a, k, 1));
    } else {
        assert(rotated(a, k, k) =~= a);
    }
}

/// Which round of level `k` has the `j`-th of `a`'s first `k` at the end.
pub open spec fn round_of(k: int, j: int) -> int {
    if k % 2 == 0 {
        if j == k - 1 { 0 } else { j + 1 }
    } else {
        k - 1 - j
    }
}

proof fn lemma_round_of(a: Seq<Seq<char>>, k: int, j: int)
    requires
        2 <= k <= a.len(),
        0 <= j < k,
    ensures
        0 <= round_of(k, j) < k,
        round_start(a, k, round_of(k, j))[k - 1] == a[j],
        round_start(a, k, round_of(k, j)).len() == a.len(),
        round_start(a, k, round_of(k, j)).subrange(k, a.len() as int) == a.subrange(k, a.len() as int),
{
    let r = round_start(a, k, round_of(k, j));
    assert(r.subrange(k, a.len() as int) =~= a.subrange(k, a.len() as int));
}

proof fn lemma_round_start_permutes(a: Seq<Seq<char>>, k: int, i: int)
    requires
        2 <= k <= a.len(),
        0 <= i <= k,
    ensures
        round_start(a, k, i).to_multiset() == a.to_multiset(),
    decreases i,
{
    if i == 0 {
        lemma_round_start_ends(a, k);
    } else {
        lemma_round_start_permutes(a, k, i - 1);
        let b = round_start(a, k, i - 1);
        lemma_round_step(a, k, i - 1);
        assert(b.len() == a.len());
        if k % 2 == 0 {
            assert(final_state(b, k - 1) == b);
            lemma_swapped_permutes(b, i - 1, k - 1);
        } else {
            let f = rotated(b, k - 1, 1);
            assert(final_state(b, k - 1) == f);
            lemma_rotate_one_permutes(b, k - 1);
            lemma_swapped_permutes(f, 0, k - 1);
        }
    }
}

/// Rotating the first `k` entries right by one keeps the multiset.
proof fn lemma_rotate_one_permutes(b: Seq<Seq<char>>, k: int)
    requires
        1 <= k <= b.len(),
    ensures
        rotated(b, k, 1).to_multiset() == b.to_multiset(),
{
    broadcast use vstd::seq_lib::to_multiset_insert;
    broadcast use vstd::seq_lib::to_multiset_remove;
    broadcast use vstd::multiset::group_multiset_axioms;
    let r = rotated(b, k, 1);
    let moved = b.remove(k - 1).insert(0, b[k - 1]);
    assert(r =~= moved);
    assert(b.remove(k - 1).to_multiset() == b.to_multiset().remove(b[k - 1]));
    assert(b.to_multiset().contains(b[k - 1])) by {
        broadcast use vstd::seq_lib::to_multiset_contains;
        assert(b.contains(b[k - 1]));
    }
    assert(moved.to_multiset() =~= b.to_multiset());
}

/// The entry at `k - 1` of a rearrangement of `a`'s first `k` is one of
/// them.
proof fn lemma_last_in_prefix(p: Seq<Seq<char>>, a: Seq<Seq<char>>, k: int) -> (j: int)
    requires
        1 <= k <= a.len(),
        rearranges(p, a, k),
    ensures
        0 <= j < k,
        a[j] == p[k - 1],
{
    broadcast use vstd::multiset::group_multiset_axioms;
    broadcast use vstd::seq_lib::to_multiset_contains;
    let x = p[k - 1];
    let n = a.len() as int;
    assert(a =~= a.take(k) + a.subrange(k, n));
    assert(p =~= p.take(k) + p.subrange(k, n));
    vstd::seq_lib::lemma_multiset_commutative(a.take(k), a.subrange(k, n));
    vstd::seq_lib::lemma_multiset_commutative(p.take(k), p.subrange(k, n));
    assert(p.take(k).contains(x)) by {
        assert(p.take(k)[k - 1] == x);
    }
    if !a.take(k).contains(x) {
        assert(a.take(k).to_multiset().count(x) == 0);
        assert(p.take(k).to_multiset().count(x) > 0);
        assert(a.to_multiset().count(x) == a.subrange(k, n).to_multiset().count(x));
        assert(p.to_multiset().count(x) == p.take(k).to_multiset().count(x) + p.subrange(k, n).to_multiset().count(x));
        assert(false);
    }
    let j = choose|j: int| 0 <= j < a.take(k).len() && a.take(k)[j] == x;
    j
}

proof fn lemma_heap_complete(a: Seq<Seq<char>>, k: int)
    requires
        1 <= k <= a.len(),
    ensures
        heap_run(a, k).1 == final_state(a, k),
        forall|p: Seq<Seq<char>>| rearranges(p, a, k) ==> #[trigger] heap_run(a, k).0.contains(p),
    decreases k, 1int, 0int,
{
    if k == 1 {
        assert forall|p: Seq<Seq<char>>| rearranges(p, a, k) implies #[trigger] heap_run(a, k).0.contains(p) by {
            let j = lemma_last_in_prefix(p, a, 1);
            assert(p =~= a) by {
                assert forall|t: int| 0 <= t < p.len() implies p[t] == a[t] by {
                    if t >= 1 {
                        assert(p[t] == p.subrange(1, p.len() as int)[t - 1]);
                        assert(a[t] == a.subrange(1, a.len() as int)[t - 1]);
                    }
                }
            }
            assert(heap_run(a, 1).0[0] == a);
        }
    } else {
        lemma_round_start_ends(a, k);
        lemma_heap_rounds(a, k, 0);
        assert(heap_run(a, k) == heap_loop(a, k, 0));
        assert forall|p: Seq<Seq<char>>| rearranges(p, a, k) implies #[trigger] heap_run(a, k).0.contains(p) by {
            let j = lemma_last_in_prefix(p, a, k);
            let i = round_of(k, j);
            lemma_round_of(a, k, j);
            let b = round_start(a, k, i);
            lemma_round_start_permutes(a, k, i);
            assert(rearranges(p, b, k - 1)) by {
                let n = a.len() as int;
                assert(p.subrange(k - 1, n) =~= b.subrange(k - 1, n)) by {
                    assert forall|t: int| 0 <= t < n - (k - 1) implies #[trigger] p.subrange(k - 1, n)[t] == b.subrange(k - 1, n)[t] by {
                        if t > 0 {
                            assert(p[k - 1 + t] == p.subrange(k, n)[t - 1]);
                            assert(b[k - 1 + t] == b.subrange(k, n)[t - 1]);
                        }
                    }
                }
            }
            lemma_heap_complete(b, k - 1);
            assert(heap_run(b, k - 1).0.contains(p));
        }
    }
}

proof fn lemma_heap_rounds(a: Seq<Seq<char>>, k: int, i: int)
    requires
        2 <= k <= a.len(),
        0 <= i <= k,
    ensures
        heap_loop(round_start(a, k, i), k, i).1 == round_start(a, k, k),
        forall|j: int, q: Seq<Seq<char>>| i <= j < k && #[trigger] heap_run(round_start(a, k, j), k - 1).0.contains(q)
            ==> heap_loop(round_start(a, k, i), k, i).0.contains(q),
    decreases k, 0int, k - i,
{
    let b = round_start(a, k, i);
    if i < k {
        assert(b.len() == a.len());
        lemma_heap_complete(b, k - 1);
        lemma_round_step(a, k, i);
        lemma_heap_rounds(a, k, i + 1);
        let inner = heap_run(b, k - 1);
        let nb = if k % 2 == 0 { swapped(inner.1, i, k - 1) } else { swapped(inner.1, 0, k - 1) };
        assert(nb == round_start(a, k, i + 1));
        let rest = heap_loop(nb, k, i + 1);
        assert(heap_loop(b, k, i) == (inner.0 + rest.0, rest.1));
        assert forall|j: int, q: Seq<Seq<char>>| i <= j < k && #[trigger] heap_run(round_start(a, k, j), k - 1).0.contains(q)
            implies heap_loop(b, k, i).0.contains(q) by {
            let all = inner.0 + rest.0;
            if j == i {
                let x = choose|x: int| 0 <= x < inner.0.len() && inner.0[x] == q;
                assert(all[x] == q);
            } else {
                assert(rest.0.contains(q));
                let x = choose|x: int| 0 <= x < rest.0.len() && rest.0[x] == q;
                assert(all[inner.0.len() + x] == q);
            }
        }
    } else {
        assert(heap_loop(b, k, i).0 =~= Seq::<Seq<Seq<char>>>::empty());
    }
}

/// For two to seven cities the preview's order is the cheapest of all:
/// no rearrangement of the cities selected has a lower route cost.
pub proof fn lemma_build_order_cheapest(map: &GameMap, owned: Seq<Seq<char>>, selected: Seq<Seq<char>>, other: Seq<Seq<char>>)
    requires
        2 <= selected.len() <= 7,
        other.len() == selected.len(),
        other.to_multiset() == selected.to_multiset(),
    ensures
        route_total(map, owned, spec_build_order(map, owned, selected)) <= route_total(map, owned, other),
{
    let k = selected.len() as int;
    lemma_heap_complete(selected, k);
    assert(rearranges(other, selected, k)) by {
        assert(other.subrange(k, k) =~= selected.subrange(k, k));
    }
    let visits = heap_run(selected, k).0;
    assert(visits.contains(other));
    let x = choose|x: int| 0 <= x < visits.len() && visits[x] == other;
    lemma_build_order_no_worse(map, owned, selected);
    assert(route_total(map, owned, spec_build_order(map, owned, selected)) <= route_total(map, owned, visits[x]));
}

} // verus!
