//! Route keys: the base priorities met on a backward route from a target item,
//! and a numeric code of bounded-length keys that follows their order.
use vstd::prelude::*;
use crate::crafting_domain::{ItemId, ItemSet, Recipe, RecipePriorityKey};
use crate::keyed_entries::{find_key, has_key, key_index, keys_distinct, keys_of, lemma_key_index};
use crate::lex_order::{
    lex_le, lex_lt, lemma_lex_asymmetric, lemma_lex_le_transitive, lemma_lex_prefix, lemma_lex_total, lemma_lex_transitive,
};

verus! {

/// One more than the number of `isize` values: every key entry becomes a digit
/// below this base.
pub open spec fn code_base() -> int {
    0x1_0000_0000_0000_0001
}

/// `code_base()` to the power `n`.
pub open spec fn code_room(n: nat) -> int
    decreases n,
{
    if n == 0 {
        1
    } else {
        code_base() * code_room((n - 1) as nat)
    }
}

/// Every entry of the key is an `isize` value.
pub open spec fn isize_entries(k: Seq<int>) -> bool {
    forall|i: int| 0 <= i < k.len() ==> isize::MIN <= #[trigger] k[i] <= isize::MAX
}

/// The leading digit: 0 for the empty key, else the first entry shifted to start at 1.
pub open spec fn lead_digit(k: Seq<int>) -> int {
    if k.len() == 0 {
        0
    } else {
        k[0] - isize::MIN + 1
    }
}

/// The key without its first entry (the empty key stays empty).
pub open spec fn tail_key(k: Seq<int>) -> Seq<int> {
    if k.len() == 0 {
        k
    } else {
        k.drop_first()
    }
}

/// The key read as an `n`-digit number in base `code_base()`, first entry
/// most significant, missing entries read as 0.
pub open spec fn key_code(k: Seq<int>, n: nat) -> int
    decreases n,
{
    if n == 0 {
        0
    } else {
        lead_digit(k) * code_room((n - 1) as nat) + key_code(tail_key(k), (n - 1) as nat)
    }
}

proof fn lemma_tail_entries(k: Seq<int>)
    requires
        isize_entries(k),
    ensures
        isize_entries(tail_key(k)),
{
    if k.len() > 0 {
        assert forall|i: int| 0 <= i < tail_key(k).len() implies isize::MIN <= #[trigger] tail_key(k)[i]
            <= isize::MAX by {
            assert(tail_key(k)[i] == k[i + 1]);
        }
    }
}

proof fn lemma_room_positive(n: nat)
    ensures
        code_room(n) >= 1,
    decreases n,
{
    if n > 0 {
        lemma_room_positive((n - 1) as nat);
        let r = code_room((n - 1) as nat);
        assert(code_base() * r >= 1) by (nonlinear_arith)
            requires
                r >= 1,
                code_base() >= 1,
        ;
    }
}

/// A code lies below `code_room(n)`.
pub proof fn lemma_key_code_bound(k: Seq<int>, n: nat)
    requires
        isize_entries(k),
    ensures
        0 <= key_code(k, n) < code_room(n),
    decreases n,
{
    if n > 0 {
        let m = (n - 1) as nat;
        lemma_tail_entries(k);
        lemma_key_code_bound(tail_key(k), m);
        lemma_room_positive(m);
        let d = lead_digit(k);
        let r = code_room(m);
        let rest = key_code(tail_key(k), m);
        assert(0 <= d <= code_base() - 1);
        assert(0 <= d * r + rest < code_base() * r) by (nonlinear_arith)
            requires
                0 <= d <= code_base() - 1,
                0 <= rest < r,
        ;
    }
}

/// The code of the empty key is 0.
proof fn lemma_empty_code(k: Seq<int>, n: nat)
    requires
        k.len() == 0,
    ensures
        key_code(k, n) == 0,
    decreases n,
{
    if n > 0 {
        lemma_empty_code(tail_key(k), (n - 1) as nat);
    }
}

/// Codes of keys of at most `n` entries follow the key order.
pub proof fn lemma_key_code_order(a: Seq<int>, b: Seq<int>, n: nat)
    requires
        isize_entries(a),
        isize_entries(b),
        a.len() <= n,
        b.len() <= n,
        lex_lt(a, b),
    ensures
        key_code(a, n) < key_code(b, n),
    decreases n,
{
    let m = (n - 1) as nat;
    lemma_tail_entries(a);
    lemma_tail_entries(b);
    lemma_key_code_bound(a, n);
    lemma_key_code_bound(b, n);
    lemma_key_code_bound(tail_key(a), m);
    lemma_key_code_bound(tail_key(b), m);
    lemma_room_positive(m);
    let r = code_room(m);
    let da = lead_digit(a);
    let db = lead_digit(b);
    let ra = key_code(tail_key(a), m);
    let rb = key_code(tail_key(b), m);
    if a.len() > 0 && b.len() > 0 && a[0] == b[0] {
        assert(lex_lt(tail_key(a), tail_key(b)));
        lemma_key_code_order(tail_key(a), tail_key(b), m);
    } else {
        assert(da < db);
        assert(da * r + ra < db * r + rb) by (nonlinear_arith)
            requires
                0 <= da < db,
                0 <= ra < r,
                0 <= rb,
        ;
    }
}

/// The base priorities of the recipes at positions `rs`, in order.
pub open spec fn route_priorities(recipes: Seq<Recipe>, rs: Seq<int>) -> Seq<int> {
    rs.map_values(|j: int| recipes[j].base_priority as int)
}

/// Recipe `j` produces `produced` and needs `needed`.
pub open spec fn route_step(recipes: Seq<Recipe>, j: int, produced: ItemId, needed: ItemId) -> bool {
    &&& 0 <= j < recipes.len()
    &&& has_key(recipes[j].output@, produced)
    &&& has_key(recipes[j].input@, needed)
}

/// A backward route from a target item: `ys[0]` is a target item and recipe
/// `rs[k]` produces `ys[k]` and needs `ys[k + 1]`.
pub open spec fn item_route(
    recipes: Seq<Recipe>,
    target: Seq<(ItemId, usize)>,
    rs: Seq<int>,
    ys: Seq<ItemId>,
) -> bool {
    &&& ys.len() == rs.len() + 1
    &&& has_key(target, ys[0])
    &&& forall|k: int| 0 <= k < rs.len() ==> route_step(recipes, #[trigger] rs[k], ys[k], ys[k + 1])
}

/// Recipe `j` produces an item met on a backward route from a target.
pub open spec fn recipe_reached(recipes: Seq<Recipe>, target: Seq<(ItemId, usize)>, j: int) -> bool {
    exists|rs: Seq<int>, ys: Seq<ItemId>|
        #[trigger] item_route(recipes, target, rs, ys) && has_key(recipes[j].output@, ys.last())
}

/// Some recipe with identity `id` is reached.
pub open spec fn id_reached(recipes: Seq<Recipe>, target: Seq<(ItemId, usize)>, id: usize) -> bool {
    exists|j: int| 0 <= j < recipes.len() && #[trigger] recipes[j].unique_id == id && recipe_reached(recipes, target, j)
}

/// `key` is the route key of a recipe with identity `id`: the base priorities
/// along a backward route to it, followed by its own.
pub open spec fn route_key_of(recipes: Seq<Recipe>, target: Seq<(ItemId, usize)>, id: usize, key: Seq<int>) -> bool {
    exists|j: int, rs: Seq<int>, ys: Seq<ItemId>|
        0 <= j < recipes.len() && #[trigger] recipes[j].unique_id == id && #[trigger] item_route(recipes, target, rs, ys)
            && has_key(recipes[j].output@, ys.last())
            && key == route_priorities(recipes, rs).push(recipes[j].base_priority as int)
}

/// `key` is the route key of item `y`: the base priorities along a backward
/// route from a target item to it.
pub open spec fn item_key_of(recipes: Seq<Recipe>, target: Seq<(ItemId, usize)>, y: ItemId, key: Seq<int>) -> bool {
    exists|rs: Seq<int>, ys: Seq<ItemId>|
        #[trigger] item_route(recipes, target, rs, ys) && ys.last() == y && key == route_priorities(recipes, rs)
}

/// `key` is the key of identity `id` as the walk records it: a recipe of that
/// identity produces the last item of a backward route, and `key` is the
/// route's priorities followed by the recipe's own; those priorities come no
/// earlier than the item's key in `ikeys`, and are empty for a target item;
/// and every input of that recipe has a key in `ikeys` no later than `key`.
pub open spec fn recipe_key_origin(
    recipes: Seq<Recipe>,
    target: Seq<(ItemId, usize)>,
    ikeys: Map<ItemId, Seq<int>>,
    id: usize,
    key: Seq<int>,
) -> bool {
    exists|j: int, rs: Seq<int>, ys: Seq<ItemId>|
        0 <= j < recipes.len() && #[trigger] recipes[j].unique_id == id && #[trigger] item_route(recipes, target, rs, ys)
            && has_key(recipes[j].output@, ys.last()) && key == route_priorities(recipes, rs).push(
            recipes[j].base_priority as int,
        ) && ikeys.dom().contains(ys.last()) && lex_le(ikeys[ys.last()], route_priorities(recipes, rs)) && (has_key(
            target,
            ys.last(),
        ) ==> route_priorities(recipes, rs) == Seq::<int>::empty()) && forall|y: ItemId|
            #[trigger] has_key(recipes[j].input@, y) ==> ikeys.dom().contains(y) && lex_le(ikeys[y], key)
}

/// Two entry lists have the same keys.
pub open spec fn same_keys(a: Seq<(ItemId, usize)>, b: Seq<(ItemId, usize)>) -> bool {
    forall|x: ItemId| #[trigger] has_key(a, x) == has_key(b, x)
}

/// Recipes sharing an identity need and produce the same items.
pub open spec fn ids_determine_items(recipes: Seq<Recipe>) -> bool {
    forall|i: int, j: int|
        0 <= i < recipes.len() && 0 <= j < recipes.len() && #[trigger] recipes[i].unique_id == #[trigger] recipes[j].unique_id
            ==> same_keys(recipes[i].input@, recipes[j].input@) && same_keys(recipes[i].output@, recipes[j].output@)
}

/// The items of the target and the inputs of the recipes, in a list.
pub open spec fn input_keys(recipes: Seq<Recipe>) -> Seq<ItemId>
    decreases recipes.len(),
{
    if recipes.len() == 0 {
        Seq::empty()
    } else {
        input_keys(recipes.drop_last()) + keys_of(recipes.last().input@)
    }
}

/// Every item that can receive a route key.
pub open spec fn universe(recipes: Seq<Recipe>, target: Seq<(ItemId, usize)>) -> Set<ItemId> {
    (keys_of(target) + input_keys(recipes)).to_set()
}

/// The ghost map `m` holds the keys of the table, which has one entry per id.
pub open spec fn table_matches(table: Seq<(usize, RecipePriorityKey)>, m: Map<usize, Seq<int>>) -> bool {
    &&& keys_distinct(table)
    &&& forall|id: usize| #[trigger] m.dom().contains(id) <==> has_key(table, id)
    &&& forall|i: int| 0 <= i < table.len() ==> m[(#[trigger] table[i]).0] == table[i].1.key()
}

/// What the route of item `y` guarantees: it is a backward route ending at
/// `y` through distinct items, its priorities are the key of `y`, and every
/// item met on it now has a key no later than the matching prefix.
pub open spec fn route_facts(
    recipes: Seq<Recipe>,
    target: Seq<(ItemId, usize)>,
    kmap: Map<usize, Seq<int>>,
    y: ItemId,
    rs: Seq<int>,
    ys: Seq<ItemId>,
) -> bool {
    &&& item_route(recipes, target, rs, ys)
    &&& ys.last() == y
    &&& kmap[y] == route_priorities(recipes, rs)
    &&& ys.no_duplicates()
    &&& forall|t: int| 0 <= t < ys.len() ==> kmap.dom().contains(#[trigger] ys[t]) && lex_le(kmap[ys[t]], kmap[y].take(t))
}

/// Every keyed item has a route with its facts.
pub open spec fn routes_ok(
    recipes: Seq<Recipe>,
    target: Seq<(ItemId, usize)>,
    kmap: Map<usize, Seq<int>>,
    routes: Map<usize, (Seq<int>, Seq<ItemId>)>,
) -> bool {
    forall|y: ItemId| #[trigger] kmap.dom().contains(y) ==> routes.dom().contains(y) && route_facts(
        recipes,
        target,
        kmap,
        y,
        routes[y].0,
        routes[y].1,
    )
}

/// Sum of the codes of the keys in a table.
pub open spec fn code_sum(table: Seq<(usize, RecipePriorityKey)>, n: nat) -> int
    decreases table.len(),
{
    if table.len() == 0 {
        0
    } else {
        code_sum(table.drop_last(), n) + key_code(table.last().1.key(), n)
    }
}

/// Replacing one entry changes the sum by the difference of the codes.
pub proof fn lemma_code_sum_update(table: Seq<(usize, RecipePriorityKey)>, i: int, e: (usize, RecipePriorityKey), n: nat)
    requires
        0 <= i < table.len(),
    ensures
        code_sum(table.update(i, e), n) == code_sum(table, n) - key_code(table[i].1.key(), n) + key_code(e.1.key(), n),
    decreases table.len(),
{
    let t = table.update(i, e);
    if i == table.len() - 1 {
        assert(t.drop_last() =~= table.drop_last());
    } else {
        assert(t.drop_last() =~= table.drop_last().update(i, e));
        lemma_code_sum_update(table.drop_last(), i, e, n);
    }
}

/// Appending an entry adds its code.
pub proof fn lemma_code_sum_push(table: Seq<(usize, RecipePriorityKey)>, e: (usize, RecipePriorityKey), n: nat)
    ensures
        code_sum(table.push(e), n) == code_sum(table, n) + key_code(e.1.key(), n),
{
    assert(table.push(e).drop_last() =~= table);
}

/// The sum of codes is not negative.
pub proof fn lemma_code_sum_nonneg(table: Seq<(usize, RecipePriorityKey)>, n: nat)
    ensures
        code_sum(table, n) >= 0,
    decreases table.len(),
{
    if table.len() > 0 {
        lemma_code_sum_nonneg(table.drop_last(), n);
        lemma_key_code_bound(table.last().1.key(), n);
    }
}

/// A list of distinct items of a finite set is no longer than the set.
pub proof fn lemma_distinct_within<A>(ys: Seq<A>, u: Set<A>)
    requires
        u.finite(),
        ys.no_duplicates(),
        forall|t: int| 0 <= t < ys.len() ==> u.contains(#[trigger] ys[t]),
    ensures
        ys.len() <= u.len(),
{
    ys.unique_seq_to_set();
    assert(ys.to_set().subset_of(u)) by {
        assert forall|x: A| ys.to_set().contains(x) implies u.contains(x) by {
            let t = choose|t: int| 0 <= t < ys.len() && ys[t] == x;
        }
    }
    vstd::set_lib::lemma_len_subset(ys.to_set(), u);
}

/// A table with distinct keys, all in a finite set, is no longer than the set.
pub proof fn lemma_table_within(table: Seq<(usize, RecipePriorityKey)>, u: Set<ItemId>)
    requires
        u.finite(),
        keys_distinct(table),
        forall|i: int| 0 <= i < table.len() ==> u.contains((#[trigger] table[i]).0),
    ensures
        table.len() <= u.len(),
{
    let ks = keys_of(table);
    assert forall|t: int| 0 <= t < ks.len() implies u.contains(#[trigger] ks[t]) by {
        assert(ks[t] == table[t].0);
    }
    assert(ks.no_duplicates()) by {
        assert forall|a: int, b: int| 0 <= a < ks.len() && 0 <= b < ks.len() && a != b implies ks[a] != ks[b] by {
            if a < b {
                assert(table[a].0 != table[b].0);
            } else {
                assert(table[b].0 != table[a].0);
            }
        }
    }
    lemma_distinct_within(ks, u);
}

/// Input items of a recipe are in the list of all input items.
pub proof fn lemma_input_keys(recipes: Seq<Recipe>, j: int, y: ItemId)
    requires
        0 <= j < recipes.len(),
        has_key(recipes[j].input@, y),
    ensures
        input_keys(recipes).contains(y),
    decreases recipes.len(),
{
    let rest = recipes.drop_last();
    if j == recipes.len() - 1 {
        let ks = keys_of(recipes.last().input@);
        let i = choose|i: int| 0 <= i < recipes[j].input@.len() && #[trigger] recipes[j].input@[i].0 == y;
        assert(ks[i] == y);
        assert((input_keys(rest) + ks)[input_keys(rest).len() + i] == y);
    } else {
        assert(rest[j] == recipes[j]);
        lemma_input_keys(rest, j, y);
        let q = choose|q: int| 0 <= q < input_keys(rest).len() && input_keys(rest)[q] == y;
        assert((input_keys(rest) + keys_of(recipes.last().input@))[q] == y);
    }
}

/// Target items and recipe inputs are in the universe, which is finite.
pub proof fn lemma_universe(recipes: Seq<Recipe>, target: Seq<(ItemId, usize)>)
    ensures
        universe(recipes, target).finite(),
        forall|y: ItemId| has_key(target, y) ==> #[trigger] universe(recipes, target).contains(y),
        forall|j: int, y: ItemId| 0 <= j < recipes.len() && #[trigger] has_key(recipes[j].input@, y) ==> universe(recipes, target).contains(y),
{
    let all = keys_of(target) + input_keys(recipes);
    assert forall|y: ItemId| has_key(target, y) implies #[trigger] universe(recipes, target).contains(y) by {
        let i = choose|i: int| 0 <= i < target.len() && #[trigger] target[i].0 == y;
        assert(all[i] == y);
    }
    assert forall|j: int, y: ItemId| 0 <= j < recipes.len() && #[trigger] has_key(recipes[j].input@, y) implies universe(recipes, target).contains(y) by {
        lemma_input_keys(recipes, j, y);
        let q = choose|q: int| 0 <= q < input_keys(recipes).len() && input_keys(recipes)[q] == y;
        assert(all[keys_of(target).len() + q] == y);
    }
}

/// A route's key is shorter than the universe it lives in.
pub proof fn lemma_route_short(
    recipes: Seq<Recipe>,
    target: Seq<(ItemId, usize)>,
    kmap: Map<usize, Seq<int>>,
    y: ItemId,
    rs: Seq<int>,
    ys: Seq<ItemId>,
    u: Set<ItemId>,
)
    requires
        u.finite(),
        route_facts(recipes, target, kmap, y, rs, ys),
        forall|z: ItemId| #[trigger] kmap.dom().contains(z) ==> u.contains(z),
    ensures
        kmap[y].len() < u.len(),
{
    assert forall|t: int| 0 <= t < ys.len() implies u.contains(#[trigger] ys[t]) by {
        assert(kmap.dom().contains(ys[t]));
    }
    lemma_distinct_within(ys, u);
}

/// Giving item `y` the key `cand`, reached from item `x` through recipe `j`,
/// keeps every route valid.
pub proof fn lemma_route_extend(
    recipes: Seq<Recipe>,
    target: Seq<(ItemId, usize)>,
    kmap: Map<usize, Seq<int>>,
    routes: Map<usize, (Seq<int>, Seq<ItemId>)>,
    x: ItemId,
    j: int,
    y: ItemId,
    cand: Seq<int>,
)
    requires
        routes_ok(recipes, target, kmap, routes),
        kmap.dom().contains(x),
        route_step(recipes, j, x, y),
        cand == kmap[x].push(recipes[j].base_priority as int),
        !kmap.dom().contains(y) || lex_lt(cand, kmap[y]),
    ensures
        routes_ok(
            recipes,
            target,
            kmap.insert(y, cand),
            routes.insert(y, (routes[x].0.push(j), routes[x].1.push(y))),
        ),
        !routes[x].1.contains(y),
{
    let rs = routes[x].0;
    let ys = routes[x].1;
    assert(route_facts(recipes, target, kmap, x, rs, ys));
    let kx = kmap[x];
    let rs2 = rs.push(j);
    let ys2 = ys.push(y);
    let k2 = kmap.insert(y, cand);
    let r2 = routes.insert(y, (rs2, ys2));
    // `y` is not on the route of `x`.
    if ys.contains(y) {
        let t = choose|t: int| 0 <= t < ys.len() && ys[t] == y;
        assert(kmap.dom().contains(ys[t]) && lex_le(kmap[ys[t]], kx.take(t)));
        assert(kx.take(t).len() < cand.len());
        assert(cand.take(kx.take(t).len() as int) =~= kx.take(t));
        lemma_lex_prefix(kx.take(t), cand);
        if kmap[y] != kx.take(t) {
            lemma_lex_transitive(kmap[y], kx.take(t), cand);
        }
        lemma_lex_asymmetric(kmap[y], cand);
        assert(false);
    }
    assert(route_priorities(recipes, rs2) =~= route_priorities(recipes, rs).push(recipes[j].base_priority as int));
    assert(route_facts(recipes, target, k2, y, rs2, ys2)) by {
        assert(item_route(recipes, target, rs2, ys2)) by {
            assert forall|k: int| 0 <= k < rs2.len() implies route_step(recipes, #[trigger] rs2[k], ys2[k], ys2[k + 1]) by {
                if k < rs.len() {
                    assert(rs2[k] == rs[k]);
                    assert(ys2[k] == ys[k]);
                    assert(ys2[k + 1] == ys[k + 1]);
                } else {
                    assert(ys2[k] == x);
                }
            }
        }
        assert(ys2.no_duplicates()) by {
            assert forall|a: int, b: int| 0 <= a < ys2.len() && 0 <= b < ys2.len() && a != b implies ys2[a] != ys2[b] by {
                if a < ys.len() && b < ys.len() {
                } else if a < ys.len() {
                    assert(ys.contains(ys[a]));
                } else if b < ys.len() {
                    assert(ys.contains(ys[b]));
                }
            }
        }
        assert forall|t: int| 0 <= t < ys2.len() implies k2.dom().contains(#[trigger] ys2[t]) && lex_le(k2[ys2[t]], k2[y].take(t)) by {
            if t < ys.len() {
                assert(ys2[t] == ys[t]);
                assert(ys[t] != y);
                assert(kmap.dom().contains(ys[t]) && lex_le(kmap[ys[t]], kx.take(t)));
                assert(cand.take(t) =~= kx.take(t));
            } else {
                assert(cand.take(t) =~= cand);
            }
        }
    }
    assert forall|z: ItemId| #[trigger] k2.dom().contains(z) implies r2.dom().contains(z) && route_facts(
        recipes,
        target,
        k2,
        z,
        r2[z].0,
        r2[z].1,
    ) by {
        if z != y {
            assert(kmap.dom().contains(z));
            let zs = routes[z].1;
            assert(route_facts(recipes, target, kmap, z, routes[z].0, zs));
            assert forall|t: int| 0 <= t < zs.len() implies k2.dom().contains(#[trigger] zs[t]) && lex_le(k2[zs[t]], k2[z].take(t)) by {
                assert(kmap.dom().contains(zs[t]) && lex_le(kmap[zs[t]], kmap[z].take(t)));
                if zs[t] == y {
                    if kmap[y] != kmap[z].take(t) {
                        lemma_lex_transitive(cand, kmap[y], kmap[z].take(t));
                    }
                }
            }
        }
    }
}

/// Every recipe producing `y` has an identity with a key.
pub open spec fn closed(recipes: Seq<Recipe>, rmap: Map<usize, Seq<int>>, y: ItemId) -> bool {
    forall|j: int| 0 <= j < recipes.len() && #[trigger] has_key(recipes[j].output@, y) ==> rmap.dom().contains(
        recipes[j].unique_id,
    )
}

/// Every recipe producing `y` has an identity whose key comes no later than
/// the key of `y` followed by the recipe's own base priority.
pub open spec fn settled(recipes: Seq<Recipe>, kmap: Map<usize, Seq<int>>, rmap: Map<usize, Seq<int>>, y: ItemId) -> bool {
    forall|j: int| 0 <= j < recipes.len() && #[trigger] has_key(recipes[j].output@, y) ==> rmap.dom().contains(
        recipes[j].unique_id,
    ) && lex_le(rmap[recipes[j].unique_id], kmap[y].push(recipes[j].base_priority as int))
}

/// What the recorded route of a recipe identity guarantees: recipe `j0` has
/// that identity, produces the last item of a backward route, its key is the
/// route's priorities followed by its own, and all its inputs have keys. The
/// route's priorities were the key of that item when it was recorded: they
/// come no earlier than its key now, and are empty for a target item.
pub open spec fn recipe_route_facts(
    recipes: Seq<Recipe>,
    target: Seq<(ItemId, usize)>,
    kmap: Map<usize, Seq<int>>,
    rmap: Map<usize, Seq<int>>,
    id: usize,
    rs: Seq<int>,
    ys: Seq<ItemId>,
    j0: int,
) -> bool {
    &&& 0 <= j0 < recipes.len()
    &&& recipes[j0].unique_id == id
    &&& item_route(recipes, target, rs, ys)
    &&& has_key(recipes[j0].output@, ys.last())
    &&& rmap[id] == route_priorities(recipes, rs).push(recipes[j0].base_priority as int)
    &&& forall|y: ItemId| #[trigger] has_key(recipes[j0].input@, y) ==> kmap.dom().contains(y)
    &&& kmap.dom().contains(ys.last())
    &&& lex_le(kmap[ys.last()], route_priorities(recipes, rs))
    &&& has_key(target, ys.last()) ==> route_priorities(recipes, rs) == Seq::<int>::empty()
}

/// Every recipe identity with a key has a recorded route with its facts.
pub open spec fn recipe_routes_ok(
    recipes: Seq<Recipe>,
    target: Seq<(ItemId, usize)>,
    kmap: Map<usize, Seq<int>>,
    rmap: Map<usize, Seq<int>>,
    rroutes: Map<usize, (Seq<int>, Seq<ItemId>, int)>,
) -> bool {
    forall|id: usize| #[trigger] rmap.dom().contains(id) ==> rroutes.dom().contains(id) && recipe_route_facts(
        recipes,
        target,
        kmap,
        rmap,
        id,
        rroutes[id].0,
        rroutes[id].1,
        rroutes[id].2,
    )
}

/// Stores `key` under `id`, replacing the entry of `id` or appending one.
pub fn set_table_key(table: &mut Vec<(usize, RecipePriorityKey)>, id: usize, key: RecipePriorityKey)
    ensures
        final(table)@ == if has_key(old(table)@, id) {
            old(table)@.update(key_index(old(table)@, id), (id, key))
        } else {
            old(table)@.push((id, key))
        },
{
    proof {
        lemma_key_index(table@, id);
    }
    match find_key(table, id) {
        Some(i) => {
            table.set(i, (id, key));
        },
        None => {
            table.push((id, key));
        },
    }
}

/// After `set_table_key`, the ghost map holds the new key.
pub proof fn lemma_table_set(
    table: Seq<(usize, RecipePriorityKey)>,
    m: Map<usize, Seq<int>>,
    id: usize,
    key: RecipePriorityKey,
)
    requires
        table_matches(table, m),
    ensures
        table_matches(
            if has_key(table, id) {
                table.update(key_index(table, id), (id, key))
            } else {
                table.push((id, key))
            },
            m.insert(id, key.key()),
        ),
{
    lemma_key_index(table, id);
    let m2 = m.insert(id, key.key());
    if has_key(table, id) {
        let i = key_index(table, id);
        let t2 = table.update(i, (id, key));
        assert forall|a: int, b: int| 0 <= a < b < t2.len() implies t2[a].0 != t2[b].0 by {
            if a == i {
                assert(table[i].0 == id);
            }
            if b == i {
                assert(table[i].0 == id);
            }
        }
        assert forall|z: usize| #[trigger] m2.dom().contains(z) <==> has_key(t2, z) by {
            if has_key(table, z) {
                let q = choose|q: int| 0 <= q < table.len() && #[trigger] table[q].0 == z;
                assert(t2[q].0 == z);
            }
            if has_key(t2, z) {
                let q = choose|q: int| 0 <= q < t2.len() && #[trigger] t2[q].0 == z;
                assert(table[q].0 == z);
            }
        }
        assert forall|q: int| 0 <= q < t2.len() implies m2[(#[trigger] t2[q]).0] == t2[q].1.key() by {
            if q != i {
                assert(table[q].0 != id);
            }
        }
    } else {
        let t2 = table.push((id, key));
        assert forall|z: usize| #[trigger] m2.dom().contains(z) <==> has_key(t2, z) by {
            if has_key(table, z) {
                let q = choose|q: int| 0 <= q < table.len() && #[trigger] table[q].0 == z;
                assert(t2[q].0 == z);
            }
            if has_key(t2, z) && z != id {
                let q = choose|q: int| 0 <= q < t2.len() && #[trigger] t2[q].0 == z;
                assert(table[q].0 == z);
            }
            if z == id {
                assert(t2[table.len() as int].0 == z);
            }
        }
        assert forall|q: int| 0 <= q < t2.len() implies m2[(#[trigger] t2[q]).0] == t2[q].1.key() by {
            if q < table.len() {
                assert(table[q].0 != id);
            }
        }
    }
}

/// Whether `cand` would improve the entry of `id`: there is none, or it is later.
pub fn key_improves(table: &Vec<(usize, RecipePriorityKey)>, id: usize, cand: &RecipePriorityKey) -> (b: bool)
    ensures
        b == (!has_key(table@, id) || lex_lt(cand.key(), table@[key_index(table@, id)].1.key())),
{
    proof {
        lemma_key_index(table@, id);
    }
    match find_key(table, id) {
        Some(i) => cand.precedes(&table[i].1),
        None => true,
    }
}

/// The state of the backward walk from the target items: the best route key
/// found so far for each item and recipe identity, the items still to expand,
/// and, as ghost state, the keys as maps and the routes behind them.
pub struct RouteSearch {
    pub best_item: Vec<(ItemId, RecipePriorityKey)>,
    pub best_recipe: Vec<(usize, RecipePriorityKey)>,
    pub stack: Vec<ItemId>,
    pub kmap: Ghost<Map<usize, Seq<int>>>,
    pub routes: Ghost<Map<usize, (Seq<int>, Seq<ItemId>)>>,
    pub rmap: Ghost<Map<usize, Seq<int>>>,
    pub rroutes: Ghost<Map<usize, (Seq<int>, Seq<ItemId>, int)>>,
}

impl RouteSearch {
    /// The invariant of the walk.
    #[verifier::opaque]
    pub open spec fn wf(&self, recipes: Seq<Recipe>, target: Seq<(ItemId, usize)>) -> bool {
        let u = universe(recipes, target);
        &&& table_matches(self.best_item@, self.kmap@)
        &&& table_matches(self.best_recipe@, self.rmap@)
        &&& routes_ok(recipes, target, self.kmap@, self.routes@)
        &&& recipe_routes_ok(recipes, target, self.kmap@, self.rmap@, self.rroutes@)
        &&& forall|y: ItemId| #[trigger] self.kmap@.dom().contains(y) ==> u.contains(y)
        &&& self.best_item@.len() <= u.len()
        &&& forall|k: int| 0 <= k < self.stack@.len() ==> self.kmap@.dom().contains(#[trigger] self.stack@[k])
        &&& forall|q: int| 0 <= q < target.len() ==> self.kmap@.dom().contains((#[trigger] target[q]).0)
        &&& forall|q: int| 0 <= q < target.len() ==> self.kmap@[(#[trigger] target[q]).0] == Seq::<int>::empty()
    }

    /// The termination measure: each improvement of an item key lowers its
    /// code by at least the one stack slot it adds.
    pub open spec fn measure(&self, n: nat) -> int {
        code_sum(self.best_item@, n) + (n - self.best_item@.len()) * code_room(n) + self.stack@.len()
    }

    /// Offers item `y`, an input of recipe `j` which produces `x`, the key
    /// `cand`; it is taken and `y` queued when it improves the key of `y`.
    pub fn offer_item(
        &mut self,
        recipes: &Vec<Recipe>,
        target: &ItemSet,
        x: ItemId,
        j: usize,
        y: ItemId,
        cand: &RecipePriorityKey,
    ) -> (improved: bool)
        requires
            old(self).wf(recipes@, target@),
            old(self).kmap@.dom().contains(x),
            route_step(recipes@, j as int, x, y),
            cand.key() == old(self).kmap@[x].push(recipes@[j as int].base_priority as int),
        ensures
            final(self).wf(recipes@, target@),
            final(self).measure(universe(recipes@, target@).len()) <= old(self).measure(universe(recipes@, target@).len()),
            final(self).kmap@.dom().contains(y),
            final(self).kmap@[x] == old(self).kmap@[x],
            final(self).routes@[x] == old(self).routes@[x],
            forall|z: ItemId| #[trigger] old(self).kmap@.dom().contains(z) ==> final(self).kmap@.dom().contains(z),
            final(self).rmap@ == old(self).rmap@,
            final(self).rroutes@ == old(self).rroutes@,
            final(self).best_recipe@ == old(self).best_recipe@,
            forall|z: ItemId| #[trigger] old(self).stack@.contains(z) ==> final(self).stack@.contains(z),
            forall|z: ItemId| #[trigger] final(self).kmap@.dom().contains(z) ==> old(self).kmap@.dom().contains(z)
                || final(self).stack@.contains(z),
            forall|z: ItemId| z != y ==> (#[trigger] final(self).kmap@.dom().contains(z) ==> final(self).kmap@[z] == old(self).kmap@[z]),
            final(self).kmap@.dom().contains(y) && old(self).kmap@.dom().contains(y) && final(self).kmap@[y] != old(self).kmap@[y]
                ==> final(self).stack@.contains(y),
            improved == (!has_key(old(self).best_item@, y) || lex_lt(
                cand.key(),
                old(self).best_item@[key_index(old(self).best_item@, y)].1.key(),
            )),
            improved ==> final(self).kmap@ == old(self).kmap@.insert(y, cand.key()),
            !improved ==> final(self).kmap@ == old(self).kmap@,
    {
        proof {
            reveal(RouteSearch::wf);
        }
        let ghost u = universe(recipes@, target@);
        let ghost n = u.len();
        let improves = key_improves(&self.best_item, y, cand);
        if improves {
            let ghost old_table = self.best_item@;
            let ghost old_kmap = self.kmap@;
            let ghost old_stack = self.stack@;
            proof {
                lemma_universe(recipes@, target@);
                lemma_key_index(old_table, y);
                assert(old_kmap.dom().contains(y) ==> old_kmap[y] == old_table[key_index(old_table, y)].1.key());
                lemma_route_extend(recipes@, target@, old_kmap, self.routes@, x, j as int, y, cand.key());
                assert(lex_lt(old_kmap[x], cand.key())) by {
                    assert(cand.key().take(old_kmap[x].len() as int) =~= old_kmap[x]);
                    lemma_lex_prefix(old_kmap[x], cand.key());
                }
                if y == x {
                    lemma_lex_asymmetric(old_kmap[x], cand.key());
                }
                assert(y != x);
                assert forall|q: int| 0 <= q < target@.len() implies (#[trigger] target@[q]).0 != y by {
                    if target@[q].0 == y {
                        assert(old_kmap.dom().contains(y));
                        assert(old_kmap[y] == Seq::<int>::empty());
                        assert(!lex_lt(cand.key(), Seq::<int>::empty()));
                    }
                }
            }
            let stored = cand.clone();
            let ghost sg = stored;
            proof {
                assert(sg.key() == cand.key());
                lemma_table_set(old_table, old_kmap, y, sg);
            }
            set_table_key(&mut self.best_item, y, stored);
            self.stack.push(y);
            let ghost rx = self.routes@[x];
            let ghost old_routes = self.routes@;
            self.kmap = Ghost(old_kmap.insert(y, cand.key()));
            self.routes = Ghost(self.routes@.insert(y, (rx.0.push(j as int), rx.1.push(y))));
            proof {
                lemma_improved_key(old_table, old_kmap, y, cand.key());
                lemma_offer_recipe_routes(recipes@, target@, old_kmap, self.kmap@, self.rmap@, self.rroutes@, y, cand.key());
                lemma_universe(recipes@, target@);
                assert(u.contains(y)) by {
                    assert(has_key(recipes@[j as int].input@, y));
                }
                lemma_offer_measure(recipes@, target@, old_table, old_kmap, old_routes, x, j as int, y, sg, u);
                assert forall|z: ItemId| #[trigger] self.kmap@.dom().contains(z) implies u.contains(z) by {
                    if z != y {
                        assert(old_kmap.dom().contains(z));
                    }
                }
                assert forall|k: int| 0 <= k < self.stack@.len() implies self.kmap@.dom().contains(#[trigger] self.stack@[k]) by {
                    if k < old_stack.len() {
                        assert(self.stack@[k] == old_stack[k]);
                    }
                }
                assert forall|z: ItemId| #[trigger] old_stack.contains(z) implies self.stack@.contains(z) by {
                    let k = choose|k: int| 0 <= k < old_stack.len() && old_stack[k] == z;
                    assert(self.stack@[k] == z);
                }
                assert(self.stack@[old_stack.len() as int] == y);
                assert(self.stack@.contains(y));
            }
        }
        improves
    }
}

impl RouteSearch {
    /// The walk before any expansion: every target item has the empty key and
    /// is queued.
    pub fn start(recipes: &Vec<Recipe>, target: &ItemSet) -> (search: Self)
        ensures
            search.wf(recipes@, target@),
            search.rmap@.dom() == Set::<usize>::empty(),
            forall|y: ItemId| #[trigger] search.kmap@.dom().contains(y) ==> search.stack@.contains(y),
    {
        let mut search = RouteSearch {
            best_item: Vec::new(),
            best_recipe: Vec::new(),
            stack: Vec::new(),
            kmap: Ghost(Map::empty()),
            routes: Ghost(Map::empty()),
            rmap: Ghost(Map::empty()),
            rroutes: Ghost(Map::empty()),
        };
        let ghost u = universe(recipes@, target@);
        proof {
            lemma_universe(recipes@, target@);
        }
        let mut t: usize = 0;
        while t < target.items.len()
            invariant
                t <= target.items.len(),
                u == universe(recipes@, target@),
                u.finite(),
                forall|z: ItemId| has_key(target@, z) ==> #[trigger] u.contains(z),
                table_matches(search.best_item@, search.kmap@),
                search.best_recipe@ == Seq::<(usize, RecipePriorityKey)>::empty(),
                search.rmap@ == Map::<usize, Seq<int>>::empty(),
                forall|y: ItemId| #[trigger] search.kmap@.dom().contains(y) ==> search.kmap@[y] == Seq::<int>::empty()
                    && search.routes@.dom().contains(y) && search.routes@[y] == (Seq::<int>::empty(), seq![y])
                    && has_key(target@, y) && search.stack@.contains(y),
                forall|k: int| 0 <= k < search.stack@.len() ==> search.kmap@.dom().contains(#[trigger] search.stack@[k]),
                forall|q: int| 0 <= q < t ==> search.kmap@.dom().contains((#[trigger] target@[q]).0),
            decreases target.items.len() - t,
        {
            let item_id = target.items[t].0;
            let empty_key = RecipePriorityKey(Vec::new());
            let ghost eg = empty_key;
            proof {
                lemma_table_set(search.best_item@, search.kmap@, item_id, eg);
                assert(eg.key() =~= Seq::<int>::empty());
            }
            let ghost old_stack = search.stack@;
            let ghost old_kmap = search.kmap@;
            set_table_key(&mut search.best_item, item_id, empty_key);
            search.stack.push(item_id);
            search.kmap = Ghost(search.kmap@.insert(item_id, Seq::empty()));
            search.routes = Ghost(search.routes@.insert(item_id, (Seq::empty(), seq![item_id])));
            proof {
                assert(search.stack@[old_stack.len() as int] == item_id);
                assert(has_key(target@, item_id)) by {
                    assert(target@[t as int].0 == item_id);
                }
                assert forall|y: ItemId| #[trigger] search.kmap@.dom().contains(y) implies search.kmap@[y] == Seq::<int>::empty()
                    && search.routes@.dom().contains(y) && search.routes@[y] == (Seq::<int>::empty(), seq![y])
                    && has_key(target@, y) && search.stack@.contains(y) by {
                    if y != item_id {
                        assert(old_kmap.dom().contains(y));
                        assert(old_stack.contains(y));
                        let k = choose|k: int| 0 <= k < old_stack.len() && old_stack[k] == y;
                        assert(search.stack@[k] == y);
                    }
                }
                assert forall|k: int| 0 <= k < search.stack@.len() implies search.kmap@.dom().contains(#[trigger] search.stack@[k]) by {
                    if k < old_stack.len() {
                        assert(search.stack@[k] == old_stack[k]);
                    }
                }
            }
            t = t + 1;
        }
        proof {
            assert(routes_ok(recipes@, target@, search.kmap@, search.routes@)) by {
                assert forall|y: ItemId| #[trigger] search.kmap@.dom().contains(y) implies search.routes@.dom().contains(y)
                    && route_facts(recipes@, target@, search.kmap@, y, search.routes@[y].0, search.routes@[y].1) by {
                    let ys = search.routes@[y].1;
                    assert(ys[0] == y);
                    assert(route_priorities(recipes@, Seq::<int>::empty()) =~= Seq::<int>::empty());
                    assert(search.kmap@[y].take(0) =~= Seq::<int>::empty());
                }
            }
            assert forall|y: ItemId| #[trigger] search.kmap@.dom().contains(y) implies u.contains(y) by {}
            assert forall|i: int| 0 <= i < search.best_item@.len() implies u.contains((#[trigger] search.best_item@[i]).0) by {
                let y = search.best_item@[i].0;
                assert(has_key(search.best_item@, y));
                assert(search.kmap@.dom().contains(y));
                assert(has_key(target@, y));
            }
            lemma_table_within(search.best_item@, u);
            assert(table_matches(search.best_recipe@, search.rmap@));
            assert(search.rmap@.dom() =~= Set::<usize>::empty());
            reveal(RouteSearch::wf);
        }
        search
    }

    /// Expands recipe `j` from item `x`: when it produces `x` and the route
    /// through `x` improves its key, its inputs are offered that key first.
    pub fn expand_recipe(&mut self, recipes: &Vec<Recipe>, target: &ItemSet, x: ItemId, j: usize, out_key: &RecipePriorityKey)
        requires
            old(self).wf(recipes@, target@),
            old(self).kmap@.dom().contains(x),
            out_key.key() == old(self).kmap@[x],
            j < recipes.len(),
            inputs_bounded(recipes@, old(self).kmap@, old(self).rmap@, old(self).rroutes@),
        ensures
            final(self).wf(recipes@, target@),
            inputs_bounded(recipes@, final(self).kmap@, final(self).rmap@, final(self).rroutes@),
            final(self).measure(universe(recipes@, target@).len()) <= old(self).measure(universe(recipes@, target@).len()),
            final(self).kmap@.dom().contains(x),
            final(self).kmap@[x] == old(self).kmap@[x],
            final(self).routes@[x] == old(self).routes@[x],
            forall|z: ItemId| #[trigger] old(self).kmap@.dom().contains(z) ==> final(self).kmap@.dom().contains(z),
            forall|z: ItemId| #[trigger] final(self).kmap@.dom().contains(z) ==> old(self).kmap@.dom().contains(z)
                || final(self).stack@.contains(z),
            forall|z: ItemId| #[trigger] old(self).stack@.contains(z) ==> final(self).stack@.contains(z),
            forall|id: usize| #[trigger] old(self).rmap@.dom().contains(id) ==> final(self).rmap@.dom().contains(id),
            has_key(recipes@[j as int].output@, x) ==> final(self).rmap@.dom().contains(recipes@[j as int].unique_id),
            has_key(recipes@[j as int].output@, x) ==> lex_le(
                final(self).rmap@[recipes@[j as int].unique_id],
                old(self).kmap@[x].push(recipes@[j as int].base_priority as int),
            ),
            forall|id: usize| #[trigger] old(self).rmap@.dom().contains(id) ==> lex_le(final(self).rmap@[id], old(self).rmap@[id]),
            forall|z: ItemId| #[trigger] final(self).kmap@.dom().contains(z) && old(self).kmap@.dom().contains(z)
                && final(self).kmap@[z] != old(self).kmap@[z] ==> final(self).stack@.contains(z),
    {
        let recipe = &recipes[j];
        if recipe.output.contains(x) {
            let mut cand = out_key.clone();
            cand.append_recipe_priority(recipe);
            let ghost kx = self.kmap@[x];
            let ghost rx = self.routes@[x];
            proof {
                assert(cand.key() =~= kx.push(recipe.base_priority as int));
                assert(route_facts(recipes@, target@, self.kmap@, x, rx.0, rx.1)) by {
                    reveal(RouteSearch::wf);
                }
            }
            if key_improves(&self.best_recipe, recipe.unique_id, &cand) {
                let ghost k0 = self.kmap@;
                let ghost s0 = self.stack@;
                let ghost m0 = self.measure(universe(recipes@, target@).len());
                let ghost rmap0 = self.rmap@;
                let ghost rr0 = self.rroutes@;
                let ghost br0 = self.best_recipe@;
                proof {
                    lemma_wf_tables(recipes@, target@, *self);
                }
                let mut k: usize = 0;
                while k < recipe.input.items.len()
                    invariant
                        k <= recipe.input.items.len(),
                        recipe == &recipes@[j as int],
                        j < recipes.len(),
                        has_key(recipe.output@, x),
                        self.wf(recipes@, target@),
                        self.kmap@.dom().contains(x),
                        self.kmap@[x] == kx,
                        self.routes@[x] == rx,
                        cand.key() == kx.push(recipe.base_priority as int),
                        self.measure(universe(recipes@, target@).len()) <= m0,
                        forall|z: ItemId| #[trigger] k0.dom().contains(z) ==> self.kmap@.dom().contains(z),
                        forall|z: ItemId| #[trigger] self.kmap@.dom().contains(z) ==> k0.dom().contains(z) || self.stack@.contains(z),
                        forall|z: ItemId| #[trigger] s0.contains(z) ==> self.stack@.contains(z),
                        self.rmap@ == rmap0,
                        self.rroutes@ == rr0,
                        self.best_recipe@ == br0,
                        forall|q: int| 0 <= q < k ==> self.kmap@.dom().contains((#[trigger] recipe.input@[q]).0)
                            && lex_le(self.kmap@[recipe.input@[q].0], cand.key()),
                        inputs_bounded(recipes@, self.kmap@, rmap0, rr0),
                        forall|z: ItemId| #[trigger] self.kmap@.dom().contains(z) && k0.dom().contains(z) && self.kmap@[z]
                            != k0[z] ==> self.stack@.contains(z),
                    decreases recipe.input.items.len() - k,
                {
                    let y = recipe.input.items[k].0;
                    proof {
                        assert(has_key(recipe.input@, y)) by {
                            assert(recipe.input@[k as int].0 == y);
                        }
                    }
                    let ghost kb = self.kmap@;
                    let ghost sb = self.stack@;
                    let ghost tb = self.best_item@;
                    proof {
                        lemma_wf_tables(recipes@, target@, *self);
                    }
                    let improved = self.offer_item(recipes, target, x, j, y, &cand);
                    proof {
                        lemma_offer_effect(tb, kb, self.kmap@, y, cand.key(), improved);
                        lemma_lower_keeps_bounded(recipes@, kb, self.kmap@, rmap0, rr0, y);
                        assert forall|q: int| 0 <= q < k + 1 implies self.kmap@.dom().contains((#[trigger] recipe.input@[q]).0)
                            && lex_le(self.kmap@[recipe.input@[q].0], cand.key()) by {
                            if q < k {
                                assert(kb.dom().contains(recipe.input@[q].0));
                                if recipe.input@[q].0 == y {
                                } else {
                                    assert(self.kmap@[recipe.input@[q].0] == kb[recipe.input@[q].0]);
                                }
                            }
                        }
                        assert forall|z: ItemId| #[trigger] self.kmap@.dom().contains(z) implies k0.dom().contains(z)
                            || self.stack@.contains(z) by {
                            if kb.dom().contains(z) && !k0.dom().contains(z) {
                                assert(sb.contains(z));
                            }
                        }
                        assert forall|z: ItemId| #[trigger] self.kmap@.dom().contains(z) && k0.dom().contains(z)
                            && self.kmap@[z] != k0[z] implies self.stack@.contains(z) by {
                            assert(kb.dom().contains(z));
                            if kb[z] != k0[z] {
                                assert(sb.contains(z));
                            }
                        }
                    }
                    k = k + 1;
                }
                let ghost sg = cand;
                let ghost before = *self;
                proof {
                    assert forall|y: ItemId| #[trigger] has_key(recipes@[j as int].input@, y) implies self.kmap@.dom().contains(y)
                        && lex_le(self.kmap@[y], sg.key()) by {
                        let q = choose|q: int| 0 <= q < recipe.input@.len() && #[trigger] recipe.input@[q].0 == y;
                        assert(self.kmap@.dom().contains(recipe.input@[q].0));
                    }
                }
                let id = recipe.unique_id;
                proof {
                    lemma_improved_key(br0, rmap0, id, sg.key());
                }
                set_table_key(&mut self.best_recipe, id, cand);
                self.rmap = Ghost(self.rmap@.insert(id, sg.key()));
                self.rroutes = Ghost(self.rroutes@.insert(id, (rx.0, rx.1, j as int)));
                proof {
                    lemma_record_recipe(recipes@, target@, before, *self, x, j as int, sg, rx);
                    lemma_record_bounded(recipes@, self.kmap@, rmap0, rr0, id, sg.key(), (rx.0, rx.1, j as int));
                }
            } else {
                proof {
                    lemma_wf_tables(recipes@, target@, *self);
                    lemma_kept_key(self.best_recipe@, self.rmap@, recipe.unique_id, cand.key());
                }
            }
        }
    }

    /// Expands item `x`: every recipe producing it is considered in turn, so
    /// afterwards each of them has a key.
    pub fn expand_item(&mut self, recipes: &Vec<Recipe>, target: &ItemSet, x: ItemId)
        requires
            old(self).wf(recipes@, target@),
            old(self).kmap@.dom().contains(x),
            inputs_bounded(recipes@, old(self).kmap@, old(self).rmap@, old(self).rroutes@),
        ensures
            final(self).wf(recipes@, target@),
            inputs_bounded(recipes@, final(self).kmap@, final(self).rmap@, final(self).rroutes@),
            final(self).measure(universe(recipes@, target@).len()) <= old(self).measure(universe(recipes@, target@).len()),
            forall|z: ItemId| #[trigger] final(self).kmap@.dom().contains(z) ==> old(self).kmap@.dom().contains(z)
                || final(self).stack@.contains(z),
            forall|z: ItemId| #[trigger] old(self).kmap@.dom().contains(z) ==> final(self).kmap@.dom().contains(z),
            forall|z: ItemId| #[trigger] old(self).stack@.contains(z) ==> final(self).stack@.contains(z),
            forall|id: usize| #[trigger] old(self).rmap@.dom().contains(id) ==> final(self).rmap@.dom().contains(id),
            forall|id: usize| #[trigger] old(self).rmap@.dom().contains(id) ==> lex_le(final(self).rmap@[id], old(self).rmap@[id]),
            forall|z: ItemId| #[trigger] final(self).kmap@.dom().contains(z) && old(self).kmap@.dom().contains(z)
                && final(self).kmap@[z] != old(self).kmap@[z] ==> final(self).stack@.contains(z),
            final(self).kmap@[x] == old(self).kmap@[x],
            settled(recipes@, final(self).kmap@, final(self).rmap@, x),
    {
        proof {
            reveal(RouteSearch::wf);
            lemma_key_index(self.best_item@, x);
            assert(has_key(self.best_item@, x));
        }
        let p = find_key(&self.best_item, x).unwrap();
        let out_key = self.best_item[p].1.clone();
        proof {
            reveal(RouteSearch::wf);
            assert(self.kmap@[self.best_item@[p as int].0] == self.best_item@[p as int].1.key());
        }
        let ghost k0 = self.kmap@;
        let ghost s0 = self.stack@;
        let ghost r0 = self.rmap@;
        let ghost m0 = self.measure(universe(recipes@, target@).len());
        let mut j: usize = 0;
        while j < recipes.len()
            invariant
                j <= recipes.len(),
                self.wf(recipes@, target@),
                self.kmap@.dom().contains(x),
                out_key.key() == self.kmap@[x],
                self.measure(universe(recipes@, target@).len()) <= m0,
                forall|z: ItemId| #[trigger] self.kmap@.dom().contains(z) ==> k0.dom().contains(z) || self.stack@.contains(z),
                forall|z: ItemId| #[trigger] k0.dom().contains(z) ==> self.kmap@.dom().contains(z),
                forall|z: ItemId| #[trigger] s0.contains(z) ==> self.stack@.contains(z),
                forall|id: usize| #[trigger] r0.dom().contains(id) ==> self.rmap@.dom().contains(id),
                forall|q: int| 0 <= q < j && #[trigger] has_key(recipes@[q].output@, x) ==> self.rmap@.dom().contains(recipes@[q].unique_id)
                    && lex_le(self.rmap@[recipes@[q].unique_id], k0[x].push(recipes@[q].base_priority as int)),
                self.kmap@[x] == k0[x],
                forall|id: usize| #[trigger] r0.dom().contains(id) ==> lex_le(self.rmap@[id], r0[id]),
                forall|z: ItemId| #[trigger] self.kmap@.dom().contains(z) && k0.dom().contains(z) && self.kmap@[z] != k0[z]
                    ==> self.stack@.contains(z),
                inputs_bounded(recipes@, self.kmap@, self.rmap@, self.rroutes@),
            decreases recipes.len() - j,
        {
            let ghost kb = self.kmap@;
            let ghost sb = self.stack@;
            let ghost rb = self.rmap@;
            self.expand_recipe(recipes, target, x, j, &out_key);
            proof {
                assert forall|q: int| 0 <= q < j + 1 && #[trigger] has_key(recipes@[q].output@, x) implies self.rmap@.dom().contains(recipes@[q].unique_id)
                    && lex_le(self.rmap@[recipes@[q].unique_id], k0[x].push(recipes@[q].base_priority as int)) by {
                    if q < j {
                        assert(rb.dom().contains(recipes@[q].unique_id));
                        lemma_lex_le_transitive(
                            self.rmap@[recipes@[q].unique_id],
                            rb[recipes@[q].unique_id],
                            k0[x].push(recipes@[q].base_priority as int),
                        );
                    }
                }
                assert forall|id: usize| #[trigger] r0.dom().contains(id) implies lex_le(self.rmap@[id], r0[id]) by {
                    assert(rb.dom().contains(id));
                    lemma_lex_le_transitive(self.rmap@[id], rb[id], r0[id]);
                }
                assert forall|z: ItemId| #[trigger] self.kmap@.dom().contains(z) && k0.dom().contains(z) && self.kmap@[z]
                    != k0[z] implies self.stack@.contains(z) by {
                    assert(kb.dom().contains(z));
                    if kb[z] != k0[z] {
                        assert(sb.contains(z));
                    }
                }
                assert forall|z: ItemId| #[trigger] self.kmap@.dom().contains(z) implies k0.dom().contains(z) || self.stack@.contains(z) by {
                    if kb.dom().contains(z) && !k0.dom().contains(z) {
                        assert(sb.contains(z));
                    }
                }
            }
            j = j + 1;
        }
    }
}

impl RouteSearch {
    /// Walks backward from the target items until no item is left to expand.
    pub fn walk(recipes: &Vec<Recipe>, target: &ItemSet) -> (search: Self)
        ensures
            search.wf(recipes@, target@),
            search.stack@.len() == 0,
            forall|y: ItemId| #[trigger] search.kmap@.dom().contains(y) ==> closed(recipes@, search.rmap@, y),
            forall|y: ItemId| #[trigger] search.kmap@.dom().contains(y) ==> settled(recipes@, search.kmap@, search.rmap@, y),
            inputs_bounded(recipes@, search.kmap@, search.rmap@, search.rroutes@),
    {
        let mut search = RouteSearch::start(recipes, target);
        let ghost n = universe(recipes@, target@).len();
        proof {
            lemma_measure_nonneg(recipes@, target@, search);
        }
        while search.stack.len() > 0
            invariant
                n == universe(recipes@, target@).len(),
                search.wf(recipes@, target@),
                forall|y: ItemId| #[trigger] search.kmap@.dom().contains(y) ==> search.stack@.contains(y) || settled(
                    recipes@,
                    search.kmap@,
                    search.rmap@,
                    y,
                ),
                inputs_bounded(recipes@, search.kmap@, search.rmap@, search.rroutes@),
            decreases search.measure(n),
        {
            let ghost before = search;
            let x = search.stack.pop().unwrap();
            proof {
                lemma_pop_keeps(recipes@, target@, before, search, x);
            }
            let ghost popped = search;
            search.expand_item(recipes, target, x);
            proof {
                lemma_measure_nonneg(recipes@, target@, search);
                assert forall|y: ItemId| #[trigger] search.kmap@.dom().contains(y) implies search.stack@.contains(y)
                    || settled(recipes@, search.kmap@, search.rmap@, y) by {
                    if popped.kmap@.dom().contains(y) && y != x {
                        assert(before.kmap@.dom().contains(y));
                        if before.stack@.contains(y) {
                            assert(popped.stack@.contains(y));
                        } else if !search.stack@.contains(y) {
                            assert(settled(recipes@, before.kmap@, before.rmap@, y));
                            assert(search.kmap@[y] == popped.kmap@[y]);
                            assert forall|q: int| 0 <= q < recipes@.len() && #[trigger] has_key(recipes@[q].output@, y)
                                implies search.rmap@.dom().contains(recipes@[q].unique_id) && lex_le(
                                search.rmap@[recipes@[q].unique_id],
                                search.kmap@[y].push(recipes@[q].base_priority as int),
                            ) by {
                                assert(before.rmap@.dom().contains(recipes@[q].unique_id));
                                lemma_lex_le_transitive(
                                    search.rmap@[recipes@[q].unique_id],
                                    before.rmap@[recipes@[q].unique_id],
                                    search.kmap@[y].push(recipes@[q].base_priority as int),
                                );
                            }
                        }
                    }
                }
            }
        }
        proof {
            assert forall|y: ItemId| #[trigger] search.kmap@.dom().contains(y) implies closed(recipes@, search.rmap@, y) by {
                assert(settled(recipes@, search.kmap@, search.rmap@, y));
            }
        }
        search
    }
}

/// After the walk each item key is a route key of its item, and the target
/// items keep the empty key.
pub proof fn lemma_walk_item_keys(recipes: Seq<Recipe>, target: Seq<(ItemId, usize)>, search: RouteSearch)
    requires
        search.wf(recipes, target),
        inputs_bounded(recipes, search.kmap@, search.rmap@, search.rroutes@),
    ensures
        forall|y: ItemId| #[trigger] search.kmap@.dom().contains(y) ==> item_key_of(recipes, target, y, search.kmap@[y]),
        forall|q: int| 0 <= q < target.len() ==> search.kmap@.dom().contains((#[trigger] target[q]).0)
            && search.kmap@[target[q].0] == Seq::<int>::empty(),
        forall|id: usize| #[trigger] search.rmap@.dom().contains(id) ==> recipe_key_origin(
            recipes,
            target,
            search.kmap@,
            id,
            search.rmap@[id],
        ),
{
    reveal(RouteSearch::wf);
    assert forall|id: usize| #[trigger] search.rmap@.dom().contains(id) implies recipe_key_origin(
        recipes,
        target,
        search.kmap@,
        id,
        search.rmap@[id],
    ) by {
        let rr = search.rroutes@[id];
        assert(recipe_route_facts(recipes, target, search.kmap@, search.rmap@, id, rr.0, rr.1, rr.2));
        assert(item_route(recipes, target, rr.0, rr.1));
        assert(recipes[rr.2].unique_id == id);
        assert forall|y: ItemId| #[trigger] has_key(recipes[rr.2].input@, y) implies search.kmap@.dom().contains(y)
            && lex_le(search.kmap@[y], search.rmap@[id]) by {
            assert(search.rmap@.dom().contains(id) && has_key(recipes[search.rroutes@[id].2].input@, y));
        }
    }
    assert forall|y: ItemId| #[trigger] search.kmap@.dom().contains(y) implies item_key_of(recipes, target, y, search.kmap@[y]) by {
        let r = search.routes@[y];
        assert(route_facts(recipes, target, search.kmap@, y, r.0, r.1));
        assert(item_route(recipes, target, r.0, r.1));
    }
}

/// Lowering the key of one item keeps the recorded routes of the recipes.
proof fn lemma_offer_recipe_routes(
    recipes: Seq<Recipe>,
    target: Seq<(ItemId, usize)>,
    kmap: Map<usize, Seq<int>>,
    kmap2: Map<usize, Seq<int>>,
    rmap: Map<usize, Seq<int>>,
    rroutes: Map<usize, (Seq<int>, Seq<ItemId>, int)>,
    y: ItemId,
    cand: Seq<int>,
)
    requires
        recipe_routes_ok(recipes, target, kmap, rmap, rroutes),
        kmap2 == kmap.insert(y, cand),
        kmap.dom().contains(y) ==> lex_lt(cand, kmap[y]),
    ensures
        recipe_routes_ok(recipes, target, kmap2, rmap, rroutes),
{
    assert forall|id: usize| #[trigger] rmap.dom().contains(id) implies rroutes.dom().contains(id) && recipe_route_facts(
        recipes,
        target,
        kmap2,
        rmap,
        id,
        rroutes[id].0,
        rroutes[id].1,
        rroutes[id].2,
    ) by {
        let rr = rroutes[id];
        assert(recipe_route_facts(recipes, target, kmap, rmap, id, rr.0, rr.1, rr.2));
        if rr.1.last() == y {
            lemma_lex_le_transitive(cand, kmap[y], route_priorities(recipes, rr.0));
        }
    }
}

/// Every input of the recipe that recorded an identity's key has a key no
/// later than it.
pub open spec fn inputs_bounded(
    recipes: Seq<Recipe>,
    kmap: Map<usize, Seq<int>>,
    rmap: Map<usize, Seq<int>>,
    rroutes: Map<usize, (Seq<int>, Seq<ItemId>, int)>,
) -> bool {
    forall|id: usize, y: ItemId|
        #[trigger] rmap.dom().contains(id) && #[trigger] has_key(recipes[rroutes[id].2].input@, y) ==> kmap.dom().contains(y)
            && lex_le(kmap[y], rmap[id])
}

/// What offering `cand` to item `y` does to the item keys: `y` ends with a key
/// no later than `cand` nor than its key before, and no other key changes.
proof fn lemma_offer_effect(
    table: Seq<(usize, RecipePriorityKey)>,
    kmap: Map<usize, Seq<int>>,
    kmap2: Map<usize, Seq<int>>,
    y: ItemId,
    cand: Seq<int>,
    improved: bool,
)
    requires
        table_matches(table, kmap),
        improved == (!has_key(table, y) || lex_lt(cand, table[key_index(table, y)].1.key())),
        improved ==> kmap2 == kmap.insert(y, cand),
        !improved ==> kmap2 == kmap,
    ensures
        kmap2.dom().contains(y),
        lex_le(kmap2[y], cand),
        kmap.dom().contains(y) ==> lex_le(kmap2[y], kmap[y]),
        forall|z: ItemId| #[trigger] kmap.dom().contains(z) ==> kmap2.dom().contains(z),
        forall|z: ItemId| z != y && #[trigger] kmap.dom().contains(z) ==> kmap2[z] == kmap[z],
{
    if improved {
        lemma_improved_key(table, kmap, y, cand);
    } else {
        lemma_kept_key(table, kmap, y, cand);
    }
}

/// Lowering the key of one item keeps the inputs bounded.
proof fn lemma_lower_keeps_bounded(
    recipes: Seq<Recipe>,
    kmap: Map<usize, Seq<int>>,
    kmap2: Map<usize, Seq<int>>,
    rmap: Map<usize, Seq<int>>,
    rroutes: Map<usize, (Seq<int>, Seq<ItemId>, int)>,
    y: ItemId,
)
    requires
        inputs_bounded(recipes, kmap, rmap, rroutes),
        forall|z: ItemId| #[trigger] kmap.dom().contains(z) ==> kmap2.dom().contains(z),
        forall|z: ItemId| z != y && #[trigger] kmap.dom().contains(z) ==> kmap2[z] == kmap[z],
        kmap.dom().contains(y) ==> lex_le(kmap2[y], kmap[y]),
    ensures
        inputs_bounded(recipes, kmap2, rmap, rroutes),
{
    assert forall|id: usize, z: ItemId|
        #[trigger] rmap.dom().contains(id) && #[trigger] has_key(recipes[rroutes[id].2].input@, z) implies kmap2.dom().contains(z)
            && lex_le(kmap2[z], rmap[id]) by {
        if z == y {
            lemma_lex_le_transitive(kmap2[y], kmap[y], rmap[id]);
        }
    }
}

/// Recording `key` for identity `id` through recipe `j`, whose inputs all have
/// keys no later than `key`, keeps the inputs bounded.
proof fn lemma_record_bounded(
    recipes: Seq<Recipe>,
    kmap: Map<usize, Seq<int>>,
    rmap: Map<usize, Seq<int>>,
    rroutes: Map<usize, (Seq<int>, Seq<ItemId>, int)>,
    id: usize,
    key: Seq<int>,
    entry: (Seq<int>, Seq<ItemId>, int),
)
    requires
        inputs_bounded(recipes, kmap, rmap, rroutes),
        forall|y: ItemId| #[trigger] has_key(recipes[entry.2].input@, y) ==> kmap.dom().contains(y) && lex_le(kmap[y], key),
    ensures
        inputs_bounded(recipes, kmap, rmap.insert(id, key), rroutes.insert(id, entry)),
{
    let rmap2 = rmap.insert(id, key);
    let rr2 = rroutes.insert(id, entry);
    assert forall|i: usize, z: ItemId|
        #[trigger] rmap2.dom().contains(i) && #[trigger] has_key(recipes[rr2[i].2].input@, z) implies kmap.dom().contains(z)
            && lex_le(kmap[z], rmap2[i]) by {
        if i != id {
            assert(rmap.dom().contains(i));
            assert(has_key(recipes[rroutes[i].2].input@, z));
        }
    }
}

/// The invariant of a walk holds its tables and their ghost maps together.
proof fn lemma_wf_tables(recipes: Seq<Recipe>, target: Seq<(ItemId, usize)>, search: RouteSearch)
    requires
        search.wf(recipes, target),
    ensures
        table_matches(search.best_item@, search.kmap@),
        table_matches(search.best_recipe@, search.rmap@),
{
    reveal(RouteSearch::wf);
}

/// A key that improves the entry of `id` comes before the key it replaces.
proof fn lemma_improved_key(table: Seq<(usize, RecipePriorityKey)>, m: Map<usize, Seq<int>>, id: usize, cand: Seq<int>)
    requires
        table_matches(table, m),
        !has_key(table, id) || lex_lt(cand, table[key_index(table, id)].1.key()),
    ensures
        m.dom().contains(id) ==> lex_lt(cand, m[id]),
{
    lemma_key_index(table, id);
    if has_key(table, id) {
        assert(m[table[key_index(table, id)].0] == table[key_index(table, id)].1.key());
    }
}

/// A key that does not improve the entry of `id` comes no earlier than it.
proof fn lemma_kept_key(table: Seq<(usize, RecipePriorityKey)>, m: Map<usize, Seq<int>>, id: usize, cand: Seq<int>)
    requires
        table_matches(table, m),
        !(!has_key(table, id) || lex_lt(cand, table[key_index(table, id)].1.key())),
    ensures
        m.dom().contains(id),
        lex_le(m[id], cand),
{
    lemma_key_index(table, id);
    assert(m[table[key_index(table, id)].0] == table[key_index(table, id)].1.key());
    lemma_lex_total(cand, m[id]);
}

/// The measure of a walk is not negative.
proof fn lemma_measure_nonneg(recipes: Seq<Recipe>, target: Seq<(ItemId, usize)>, search: RouteSearch)
    requires
        search.wf(recipes, target),
    ensures
        search.measure(universe(recipes, target).len()) >= 0,
{
    reveal(RouteSearch::wf);
    let n = universe(recipes, target).len();
    lemma_code_sum_nonneg(search.best_item@, n);
    lemma_room_positive(n);
    let a = n - search.best_item@.len();
    let r = code_room(n);
    assert(a * r >= 0) by (nonlinear_arith)
        requires
            a >= 0,
            r >= 1,
    ;
}

/// Popping the last queued item keeps the invariant, lowers the measure by
/// one, and leaves every other queued item queued.
proof fn lemma_pop_keeps(recipes: Seq<Recipe>, target: Seq<(ItemId, usize)>, before: RouteSearch, after: RouteSearch, x: ItemId)
    requires
        before.wf(recipes, target),
        before.stack@.len() > 0,
        x == before.stack@.last(),
        after.stack@ == before.stack@.drop_last(),
        after.best_item == before.best_item,
        after.best_recipe == before.best_recipe,
        after.kmap == before.kmap,
        after.routes == before.routes,
        after.rmap == before.rmap,
        after.rroutes == before.rroutes,
    ensures
        after.wf(recipes, target),
        after.kmap@.dom().contains(x),
        after.measure(universe(recipes, target).len()) == before.measure(universe(recipes, target).len()) - 1,
        forall|y: ItemId| #[trigger] before.stack@.contains(y) && y != x ==> after.stack@.contains(y),
{
    reveal(RouteSearch::wf);
    assert(before.kmap@.dom().contains(before.stack@[before.stack@.len() - 1]));
    assert forall|y: ItemId| #[trigger] before.stack@.contains(y) && y != x implies after.stack@.contains(y) by {
        let k = choose|k: int| 0 <= k < before.stack@.len() && before.stack@[k] == y;
        assert(after.stack@[k] == y);
    }
    assert forall|k: int| 0 <= k < after.stack@.len() implies after.kmap@.dom().contains(#[trigger] after.stack@[k]) by {
        assert(after.stack@[k] == before.stack@[k]);
    }
}

/// Every recipe identity with a key is reached, and its key is a route key.
pub proof fn lemma_walk_sound(recipes: Seq<Recipe>, target: Seq<(ItemId, usize)>, search: RouteSearch, id: usize)
    requires
        search.wf(recipes, target),
        search.rmap@.dom().contains(id),
    ensures
        id_reached(recipes, target, id),
        route_key_of(recipes, target, id, search.rmap@[id]),
{
    reveal(RouteSearch::wf);
    let (rs, ys, j0) = search.rroutes@[id];
    assert(recipe_route_facts(recipes, target, search.kmap@, search.rmap@, id, rs, ys, j0));
    assert(recipe_reached(recipes, target, j0)) by {
        assert(item_route(recipes, target, rs, ys) && has_key(recipes[j0].output@, ys.last()));
    }
    assert(recipes[j0].unique_id == id);
}

/// When the walk is over and identities determine what recipes need and
/// produce, every item met on a backward route has a key.
proof fn lemma_route_keyed(
    recipes: Seq<Recipe>,
    target: Seq<(ItemId, usize)>,
    search: RouteSearch,
    rs: Seq<int>,
    ys: Seq<ItemId>,
    k: int,
)
    requires
        search.wf(recipes, target),
        forall|y: ItemId| #[trigger] search.kmap@.dom().contains(y) ==> closed(recipes, search.rmap@, y),
        ids_determine_items(recipes),
        item_route(recipes, target, rs, ys),
        0 <= k <= rs.len(),
    ensures
        search.kmap@.dom().contains(ys[k]),
    decreases k,
{
    reveal(RouteSearch::wf);
    if k == 0 {
        let q = choose|q: int| 0 <= q < target.len() && #[trigger] target[q].0 == ys[0];
        assert(search.kmap@.dom().contains(target[q].0));
    } else {
        lemma_route_keyed(recipes, target, search, rs, ys, k - 1);
        let j = rs[k - 1];
        assert(route_step(recipes, j, ys[k - 1], ys[k]));
        assert(closed(recipes, search.rmap@, ys[k - 1]));
        assert(has_key(recipes[j].output@, ys[k - 1]));
        let id = recipes[j].unique_id;
        assert(search.rmap@.dom().contains(id));
        let (rs0, ys0, j0) = search.rroutes@[id];
        assert(recipe_route_facts(recipes, target, search.kmap@, search.rmap@, id, rs0, ys0, j0));
        assert(same_keys(recipes[j].input@, recipes[j0].input@));
        assert(has_key(recipes[j0].input@, ys[k]));
    }
}

/// When the walk is over and identities determine what recipes need and
/// produce, every reached recipe's identity has a key.
pub proof fn lemma_walk_complete(recipes: Seq<Recipe>, target: Seq<(ItemId, usize)>, search: RouteSearch, j: int)
    requires
        search.wf(recipes, target),
        forall|y: ItemId| #[trigger] search.kmap@.dom().contains(y) ==> closed(recipes, search.rmap@, y),
        ids_determine_items(recipes),
        0 <= j < recipes.len(),
        recipe_reached(recipes, target, j),
    ensures
        search.rmap@.dom().contains(recipes[j].unique_id),
{
    let (rs, ys) = choose|rs: Seq<int>, ys: Seq<ItemId>|
        #[trigger] item_route(recipes, target, rs, ys) && has_key(recipes[j].output@, ys.last());
    lemma_route_keyed(recipes, target, search, rs, ys, rs.len() as int);
    assert(ys.last() == ys[rs.len() as int]);
    assert(closed(recipes, search.rmap@, ys.last()));
}

/// Recording the key and route of the recipe at `j`, expanded from `x` after
/// all its inputs got keys, keeps the walk's invariant.
proof fn lemma_record_recipe(
    recipes: Seq<Recipe>,
    target: Seq<(ItemId, usize)>,
    before: RouteSearch,
    after: RouteSearch,
    x: ItemId,
    j: int,
    key: RecipePriorityKey,
    rx: (Seq<int>, Seq<ItemId>),
)
    requires
        before.wf(recipes, target),
        0 <= j < recipes.len(),
        has_key(recipes[j].output@, x),
        before.kmap@.dom().contains(x),
        before.routes@[x] == rx,
        key.key() == before.kmap@[x].push(recipes[j].base_priority as int),
        forall|y: ItemId| #[trigger] has_key(recipes[j].input@, y) ==> before.kmap@.dom().contains(y),
        after.best_item == before.best_item,
        after.stack == before.stack,
        after.kmap == before.kmap,
        after.routes == before.routes,
        after.best_recipe@ == if has_key(before.best_recipe@, recipes[j].unique_id) {
            before.best_recipe@.update(key_index(before.best_recipe@, recipes[j].unique_id), (recipes[j].unique_id, key))
        } else {
            before.best_recipe@.push((recipes[j].unique_id, key))
        },
        after.rmap@ == before.rmap@.insert(recipes[j].unique_id, key.key()),
        after.rroutes@ == before.rroutes@.insert(recipes[j].unique_id, (rx.0, rx.1, j)),
    ensures
        after.wf(recipes, target),
{
    reveal(RouteSearch::wf);
    let id = recipes[j].unique_id;
    let kmap = before.kmap@;
    lemma_table_set(before.best_recipe@, before.rmap@, id, key);
    assert(route_facts(recipes, target, kmap, x, rx.0, rx.1));
    assert(recipe_route_facts(recipes, target, kmap, after.rmap@, id, rx.0, rx.1, j));
    assert forall|i: usize| #[trigger] after.rmap@.dom().contains(i) implies after.rroutes@.dom().contains(i)
        && recipe_route_facts(recipes, target, kmap, after.rmap@, i, after.rroutes@[i].0, after.rroutes@[i].1, after.rroutes@[i].2) by {
        if i != id {
            assert(before.rmap@.dom().contains(i));
            let rr = before.rroutes@[i];
            assert(recipe_route_facts(recipes, target, kmap, before.rmap@, i, rr.0, rr.1, rr.2));
        }
    }
}

/// Taking an improving key for `y` and queueing `y` does not raise the measure.
proof fn lemma_offer_measure(
    recipes: Seq<Recipe>,
    target: Seq<(ItemId, usize)>,
    table: Seq<(usize, RecipePriorityKey)>,
    kmap: Map<usize, Seq<int>>,
    routes: Map<usize, (Seq<int>, Seq<ItemId>)>,
    x: ItemId,
    j: int,
    y: ItemId,
    key: RecipePriorityKey,
    u: Set<ItemId>,
)
    requires
        u == universe(recipes, target),
        u.finite(),
        table_matches(table, kmap),
        routes_ok(recipes, target, kmap, routes),
        forall|z: ItemId| #[trigger] kmap.dom().contains(z) ==> u.contains(z),
        kmap.dom().contains(x),
        u.contains(y),
        0 <= j < recipes.len(),
        key.key() == kmap[x].push(recipes[j].base_priority as int),
        !has_key(table, y) || lex_lt(key.key(), table[key_index(table, y)].1.key()),
    ensures
        ({
            let t2 = if has_key(table, y) {
                table.update(key_index(table, y), (y, key))
            } else {
                table.push((y, key))
            };
            let n = u.len();
            &&& t2.len() <= n
            &&& code_sum(t2, n) + (n - t2.len()) * code_room(n) + 1 <= code_sum(table, n) + (n - table.len())
                * code_room(n)
        }),
{
    let n = u.len();
    lemma_key_index(table, y);
    let t2 = if has_key(table, y) {
        table.update(key_index(table, y), (y, key))
    } else {
        table.push((y, key))
    };
    assert forall|i: int| 0 <= i < t2.len() implies u.contains((#[trigger] t2[i]).0) by {
        if t2[i].0 != y {
            assert(i < table.len());
            assert(table[i] == t2[i]);
            assert(has_key(table, table[i].0));
            assert(kmap.dom().contains(table[i].0));
        }
    }
    assert(keys_distinct(t2)) by {
        assert forall|a: int, b: int| 0 <= a < b < t2.len() implies t2[a].0 != t2[b].0 by {
            if has_key(table, y) {
                let q = key_index(table, y);
                if a == q {
                    assert(table[q].0 == y);
                }
                if b == q {
                    assert(table[q].0 == y);
                }
            } else {
                if b == table.len() {
                    assert(table[a].0 != y);
                }
            }
        }
    }
    lemma_table_within(t2, u);
    let rx = routes[x];
    lemma_route_short(recipes, target, kmap, x, rx.0, rx.1, u);
    lemma_key_code_bound(key.key(), n);
    if has_key(table, y) {
        let q = key_index(table, y);
        assert(kmap.dom().contains(y));
        assert(kmap[y] == table[q].1.key());
        lemma_route_short(recipes, target, kmap, y, routes[y].0, routes[y].1, u);
        lemma_key_code_order(key.key(), kmap[y], n);
        lemma_code_sum_update(table, q, (y, key), n);
    } else {
        lemma_code_sum_push(table, (y, key), n);
        lemma_mul_step((n - t2.len()) as int, code_room(n));
    }
}

/// `(a + 1) * r == a * r + r`.
pub proof fn lemma_mul_step(a: int, r: int)
    ensures
        (a + 1) * r == a * r + r,
{
    assert((a + 1) * r == a * r + r) by (nonlinear_arith);
}

} // verus!
