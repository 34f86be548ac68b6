//! Structural analysis of recipe sets: which items matter, which cannot be
//! produced, which recipes to prefer, and where recipes feed each other in loops.
use vstd::prelude::*;
use crate::crafting_domain::{ItemId, ItemSet, Recipe, RecipePriorityKey, RecipeView};
use crate::route_keys::{
    closed, id_reached, ids_determine_items, item_key_of, lemma_walk_complete, lemma_walk_item_keys, lemma_walk_sound,
    recipe_key_origin, recipe_reached, route_key_of, settled, RouteSearch,
};
use crate::keyed_entries::{count_of, find_key, has_key, keys_distinct, lemma_key_index};
use crate::lex_order::{lex_le, lex_lt, usize_ints, usize_seq_equal, usize_seq_less, lemma_lex_irreflexive, lemma_lex_transitive, lemma_lex_total, lemma_lex_asymmetric};

verus! {

/// Some recipe among `recipes` lists `item` among its outputs or inputs.
pub open spec fn mentioned_by(recipes: Seq<Recipe>, item: ItemId) -> bool {
    exists|j: int|
        0 <= j < recipes.len() && (has_key(#[trigger] recipes[j]@.output, item) || has_key(
            recipes[j]@.input,
            item,
        ))
}

proof fn lemma_mentioned_step(recipes: Seq<Recipe>, j: int, x: ItemId)
    requires
        0 <= j < recipes.len(),
    ensures
        mentioned_by(recipes.take(j + 1), x) == (mentioned_by(recipes.take(j), x) || has_key(
            recipes[j]@.output,
            x,
        ) || has_key(recipes[j]@.input, x)),
{
    let t = recipes.take(j + 1);
    let u = recipes.take(j);
    if mentioned_by(t, x) {
        let k = choose|k: int|
            0 <= k < t.len() && (has_key(#[trigger] t[k]@.output, x) || has_key(t[k]@.input, x));
        if k < j {
            assert(u[k] == t[k]);
        }
    }
    if mentioned_by(u, x) {
        let k = choose|k: int|
            0 <= k < u.len() && (has_key(#[trigger] u[k]@.output, x) || has_key(u[k]@.input, x));
        assert(u[k] == t[k]);
    }
    assert(t[j] == recipes[j]);
}

/// No element occurs twice.
pub open spec fn no_duplicates(s: Seq<usize>) -> bool {
    forall|i: int, j: int| 0 <= i < j < s.len() ==> s[i] != s[j]
}

/// Appends `x` unless it is already there.
pub(crate) fn push_unique(v: &mut Vec<usize>, x: usize)
    requires
        no_duplicates(old(v)@),
    ensures
        no_duplicates(final(v)@),
        forall|y: usize| #[trigger] final(v)@.contains(y) <==> (old(v)@.contains(y) || y == x),
        final(v)@.len() >= old(v)@.len(),
        forall|k: int| 0 <= k < old(v)@.len() ==> final(v)@[k] == old(v)@[k],
{
    let mut i: usize = 0;
    while i < v.len()
        invariant
            i <= v.len(),
            v@ == old(v)@,
            no_duplicates(old(v)@),
            forall|k: int| 0 <= k < i ==> v@[k] != x,
        decreases v.len() - i,
    {
        if v[i] == x {
            return;
        }
        i = i + 1;
    }
    v.push(x);
    assert(v@.last() == x);
    assert forall|y: usize| #[trigger] v@.contains(y) <==> (old(v)@.contains(y) || y == x) by {
        if old(v)@.contains(y) {
            let k = choose|k: int| 0 <= k < old(v)@.len() && old(v)@[k] == y;
            assert(v@[k] == y);
        }
        if v@.contains(y) && y != x {
            let k = choose|k: int| 0 <= k < v@.len() && v@[k] == y;
            assert(old(v)@[k] == y);
        }
    }
}

/// Adds every key of an item set.
fn push_unique_keys(v: &mut Vec<usize>, set: &ItemSet)
    requires
        no_duplicates(old(v)@),
    ensures
        no_duplicates(final(v)@),
        forall|y: usize| #[trigger] final(v)@.contains(y) <==> (old(v)@.contains(y) || has_key(set@, y)),
        forall|k: int| 0 <= k < old(v)@.len() ==> final(v)@[k] == old(v)@[k],
        final(v)@.len() >= old(v)@.len(),
{
    let mut i: usize = 0;
    while i < set.items.len()
        invariant
            i <= set.items.len(),
            no_duplicates(v@),
            forall|y: usize| #[trigger] v@.contains(y) <==> (old(v)@.contains(y) || exists|k: int|
                0 <= k < i && set@[k].0 == y),
            forall|k: int| 0 <= k < old(v)@.len() ==> v@[k] == old(v)@[k],
            v@.len() >= old(v)@.len(),
        decreases set.items.len() - i,
    {
        let ghost before = v@;
        push_unique(v, set.items[i].0);
        proof {
            assert forall|y: usize| #[trigger] v@.contains(y) <==> (old(v)@.contains(y) || exists|k: int|
                0 <= k < i + 1 && set@[k].0 == y) by {
                if exists|k: int| 0 <= k < i + 1 && set@[k].0 == y {
                    let k = choose|k: int| 0 <= k < i + 1 && set@[k].0 == y;
                    if k < i {
                        assert(before.contains(y));
                    }
                }
                if before.contains(y) && !old(v)@.contains(y) {
                    let k = choose|k: int| 0 <= k < i && set@[k].0 == y;
                    assert(0 <= k < i + 1);
                }
                if y == set@[i as int].0 {
                    assert(0 <= i < i + 1 && set@[i as int].0 == y);
                }
            }
        }
        i = i + 1;
    }
    proof {
        assert forall|y: usize| #[trigger] v@.contains(y) <==> (old(v)@.contains(y) || has_key(set@, y)) by {
            if exists|k: int| 0 <= k < set@.len() && #[trigger] set@[k].0 == y {
                let k = choose|k: int| 0 <= k < set@.len() && #[trigger] set@[k].0 == y;
                assert(set@[k].0 == y);
            }
            if has_key(set@, y) {
                let k = choose|k: int| 0 <= k < set@.len() && #[trigger] set@[k].0 == y;
                assert(set@[k].0 == y);
            }
        }
    }
}

/// Collects the item ids relevant to solving: target items, recipe inputs and
/// outputs, and the given extras, each once.
pub fn collect_relevant_item_ids(recipes: &Vec<Recipe>, target: &ItemSet, extra_item_ids: &Vec<ItemId>) -> (ids: Vec<ItemId>)
    ensures
        no_duplicates(ids@),
        forall|x: ItemId| #[trigger] ids@.contains(x) <==> (has_key(target@, x) || mentioned_by(
            recipes@,
            x,
        ) || extra_item_ids@.contains(x)),
{
    let mut ids: Vec<ItemId> = Vec::new();
    push_unique_keys(&mut ids, target);
    let mut j: usize = 0;
    while j < recipes.len()
        invariant
            j <= recipes.len(),
            no_duplicates(ids@),
            forall|x: ItemId| #[trigger] ids@.contains(x) <==> (has_key(target@, x) || mentioned_by(
                recipes@.take(j as int),
                x,
            )),
        decreases recipes.len() - j,
    {
        let ghost before = ids@;
        push_unique_keys(&mut ids, &recipes[j].output);
        push_unique_keys(&mut ids, &recipes[j].input);
        proof {
            assert forall|x: ItemId| #[trigger] ids@.contains(x) <==> (has_key(target@, x) || mentioned_by(
                recipes@.take(j + 1),
                x,
            )) by {
                lemma_mentioned_step(recipes@, j as int, x);
            }
        }
        j = j + 1;
    }
    assert(recipes@.take(recipes@.len() as int) =~= recipes@);
    let mut k: usize = 0;
    while k < extra_item_ids.len()
        invariant
            k <= extra_item_ids.len(),
            no_duplicates(ids@),
            forall|x: ItemId| #[trigger] ids@.contains(x) <==> (has_key(target@, x) || mentioned_by(
                recipes@,
                x,
            ) || extra_item_ids@.take(k as int).contains(x)),
        decreases extra_item_ids.len() - k,
    {
        push_unique(&mut ids, extra_item_ids[k]);
        proof {
            assert forall|x: ItemId| extra_item_ids@.take(k + 1).contains(x) <==> (extra_item_ids@.take(
                k as int,
            ).contains(x) || x == extra_item_ids@[k as int]) by {
                if extra_item_ids@.take(k + 1).contains(x) {
                    let q = choose|q: int| 0 <= q < k + 1 && #[trigger] extra_item_ids@.take(k + 1)[q] == x;
                    if q < k {
                        assert(extra_item_ids@.take(k as int)[q] == x);
                    }
                }
                if extra_item_ids@.take(k as int).contains(x) {
                    let q = choose|q: int| 0 <= q < k && #[trigger] extra_item_ids@.take(k as int)[q] == x;
                    assert(extra_item_ids@.take(k + 1)[q] == x);
                }
                if x == extra_item_ids@[k as int] {
                    assert(extra_item_ids@.take(k + 1)[k as int] == x);
                }
            }
            assert forall|x: ItemId| #[trigger] ids@.contains(x) <==> (has_key(target@, x) || mentioned_by(
                recipes@,
                x,
            ) || extra_item_ids@.take(k + 1).contains(x)) by {
                assert(extra_item_ids@.take(k + 1).contains(x) <==> (extra_item_ids@.take(
                    k as int,
                ).contains(x) || x == extra_item_ids@[k as int]));
            }
        }
        k = k + 1;
    }
    assert(extra_item_ids@.take(extra_item_ids@.len() as int) =~= extra_item_ids@);
    ids
}

/// Some recipe produces a positive amount of `item`.
pub open spec fn producible(recipes: Seq<Recipe>, item: ItemId) -> bool {
    exists|j: int| 0 <= j < recipes.len() && count_of(#[trigger] recipes[j]@.output, item) > 0
}

/// Keys in order: no key is followed by a smaller one.
pub open spec fn keys_sorted(keys: Seq<Seq<int>>) -> bool {
    forall|i: int, l: int| 0 <= i < l < keys.len() ==> !lex_lt(#[trigger] keys[l], #[trigger] keys[i])
}

/// Entries with equal keys keep the order of their positions in the input.
pub open spec fn ties_in_order(keys: Seq<Seq<int>>, order: Seq<int>) -> bool {
    forall|i: int, l: int| 0 <= i < l < keys.len() && #[trigger] keys[i] == #[trigger] keys[l] ==> order[i] < order[l]
}

/// `o` is the recipe `r` with effective priority `i`.
pub open spec fn ranked_as(r: Recipe, o: Recipe, i: int) -> bool {
    &&& o.unique_id == r.unique_id
    &&& o.input@ == r.input@
    &&& o.output@ == r.output@
    &&& o.base_priority == r.base_priority
    &&& o.effective_priority == Some(i as isize)
}

/// The recipe keys fit some map of item keys as `item_keys_bound` says.
#[verifier::opaque]
pub open spec fn keys_fit_item_keys(
    recipes: Seq<Recipe>,
    target: Seq<(ItemId, usize)>,
    out: Seq<Recipe>,
    keys: Seq<Seq<int>>,
) -> bool {
    exists|ikeys: Map<ItemId, Seq<int>>| #[trigger] item_keys_bound(recipes, target, ikeys, out, keys)
}

/// `ikeys` gives each target item the empty key and every other item it holds
/// a route key of that item; no kept recipe's key comes after the key of an
/// item it produces followed by its own base priority; and each kept recipe's
/// key extends a key that an item it produces held during the walk (one no
/// earlier than that item's key in `ikeys`, and empty for a target item), and
/// the recipe that recorded it has every input keyed no later than it. So an
/// item's key is no later than the key of any recipe that consumes it and
/// recorded its own key.
pub open spec fn item_keys_bound(
    recipes: Seq<Recipe>,
    target: Seq<(ItemId, usize)>,
    ikeys: Map<ItemId, Seq<int>>,
    out: Seq<Recipe>,
    keys: Seq<Seq<int>>,
) -> bool {
    &&& forall|q: int| 0 <= q < target.len() ==> ikeys.dom().contains((#[trigger] target[q]).0) && ikeys[target[q].0]
        == Seq::<int>::empty()
    &&& forall|y: ItemId| #[trigger] ikeys.dom().contains(y) ==> item_key_of(recipes, target, y, ikeys[y])
    &&& forall|i: int, y: ItemId|
        0 <= i < out.len() && #[trigger] has_key(out[i].output@, y) && #[trigger] ikeys.dom().contains(y) ==> lex_le(
            keys[i],
            ikeys[y].push(out[i].base_priority as int),
        )
    &&& forall|i: int| 0 <= i < out.len() ==> recipe_key_origin(recipes, target, ikeys, (#[trigger] out[i]).unique_id, keys[i])
}

/// The outcome of prioritising: `out` holds the recipes at the distinct
/// positions `order` of `recipes`, each ranked by its place in `out`. A
/// recipe is kept together with every recipe of its identity; kept identities
/// are reached backward from the target, and every reached recipe is kept
/// when identities determine what recipes need and produce. `keys` are route
/// keys, one per identity, each no later than the key of an item it produces
/// followed by its own base priority (so a recipe making a target item has a
/// key no later than its own base priority alone), and `out` is sorted by them
/// with ties in the input order.
pub open spec fn prioritized(
    recipes: Seq<Recipe>,
    target: Seq<(ItemId, usize)>,
    order: Seq<int>,
    keys: Seq<Seq<int>>,
    out: Seq<Recipe>,
) -> bool {
    &&& order.len() == out.len()
    &&& keys.len() == out.len()
    &&& forall|i: int| 0 <= i < order.len() ==> 0 <= #[trigger] order[i] < recipes.len()
    &&& forall|i: int, l: int| 0 <= i < l < order.len() ==> order[i] != order[l]
    &&& forall|i: int| 0 <= i < out.len() ==> ranked_as(recipes[order[i]], #[trigger] out[i], i)
    &&& forall|i: int| 0 <= i < out.len() ==> id_reached(recipes, target, (#[trigger] out[i]).unique_id)
        && route_key_of(recipes, target, out[i].unique_id, keys[i])
    &&& forall|j1: int, j2: int|
        0 <= j1 < recipes.len() && 0 <= j2 < recipes.len() && #[trigger] recipes[j1].unique_id == #[trigger] recipes[j2].unique_id
            ==> (order.contains(j1) <==> order.contains(j2))
    &&& ids_determine_items(recipes) ==> forall|j: int|
        0 <= j < recipes.len() && #[trigger] recipe_reached(recipes, target, j) ==> order.contains(j)
    &&& forall|j: int, t: ItemId|
        0 <= j < recipes.len() && has_key(target, t) && #[trigger] has_key(recipes[j].output@, t) ==> order.contains(j)
    &&& forall|i: int, l: int|
        0 <= i < out.len() && 0 <= l < out.len() && #[trigger] out[i].unique_id == #[trigger] out[l].unique_id ==> keys[i] == keys[l]
    &&& keys_sorted(keys)
    &&& ties_in_order(keys, order)
    &&& keys_fit_item_keys(recipes, target, out, keys)
}

/// The first position whose key comes after `key`, or the length.
fn insert_position(sorted: &Vec<(Recipe, RecipePriorityKey)>, key: &RecipePriorityKey) -> (p: usize)
    ensures
        p <= sorted@.len(),
        forall|a: int| 0 <= a < p ==> !lex_lt(key.key(), #[trigger] sorted@[a].1.key()),
        p < sorted@.len() ==> lex_lt(key.key(), sorted@[p as int].1.key()),
{
    let mut p: usize = 0;
    while p < sorted.len()
        invariant
            p <= sorted@.len(),
            forall|a: int| 0 <= a < p ==> !lex_lt(key.key(), #[trigger] sorted@[a].1.key()),
        decreases sorted.len() - p,
    {
        if key.precedes(&sorted[p].1) {
            return p;
        }
        p = p + 1;
    }
    p
}

/// Inserting a key before the first larger one keeps the keys sorted, and
/// ties stay in order when the new entry's position is the largest.
proof fn lemma_insert_sorted(keys: Seq<Seq<int>>, order: Seq<int>, p: int, k: Seq<int>, o: int)
    requires
        keys.len() == order.len(),
        0 <= p <= keys.len(),
        keys_sorted(keys),
        ties_in_order(keys, order),
        forall|a: int| 0 <= a < p ==> !lex_lt(k, #[trigger] keys[a]),
        p < keys.len() ==> lex_lt(k, keys[p]),
        forall|a: int| 0 <= a < order.len() ==> #[trigger] order[a] < o,
    ensures
        keys_sorted(keys.insert(p, k)),
        ties_in_order(keys.insert(p, k), order.insert(p, o)),
{
    let k2 = keys.insert(p, k);
    let o2 = order.insert(p, o);
    // every key from position p on comes after k
    assert forall|b: int| p <= b < keys.len() implies lex_lt(k, #[trigger] keys[b]) by {
        if b > p {
            assert(!lex_lt(keys[b], keys[p]));
            lemma_lex_total(keys[b], keys[p]);
            if keys[b] != keys[p] {
                lemma_lex_transitive(k, keys[p], keys[b]);
            }
        }
    }
    assert forall|i: int, l: int| 0 <= i < l < k2.len() implies !lex_lt(#[trigger] k2[l], #[trigger] k2[i]) by {
        if i < p && l < p {
            assert(k2[i] == keys[i] && k2[l] == keys[l]);
        } else if i < p && l == p {
            assert(k2[i] == keys[i]);
        } else if i < p {
            assert(k2[i] == keys[i] && k2[l] == keys[l - 1]);
        } else if i == p {
            assert(k2[l] == keys[l - 1]);
            lemma_lex_asymmetric(k, keys[l - 1]);
        } else {
            assert(k2[i] == keys[i - 1] && k2[l] == keys[l - 1]);
        }
    }
    assert forall|i: int, l: int| 0 <= i < l < k2.len() && #[trigger] k2[i] == #[trigger] k2[l] implies o2[i] < o2[l] by {
        if i < p && l < p {
            assert(k2[i] == keys[i] && k2[l] == keys[l]);
        } else if i < p && l == p {
            assert(o2[i] == order[i]);
        } else if i < p {
            assert(k2[i] == keys[i] && k2[l] == keys[l - 1]);
        } else if i == p {
            assert(k2[l] == keys[l - 1]);
            lemma_lex_irreflexive(k);
        } else {
            assert(k2[i] == keys[i - 1] && k2[l] == keys[l - 1]);
        }
    }
}

/// Keeps the recipes that can contribute to the target and ranks them.
///
/// Walks backward from the target items: a recipe producing an item on the
/// walk gets the key of that item followed by its own base priority, and its
/// inputs inherit that key when it comes before theirs. The kept recipes are
/// sorted by their keys (ties keep the given order) and get their place as
/// effective priority. Also returns every item the kept recipes need or
/// produce, each once.
pub fn prioritize_and_prune_relevant_recipes_and_items(recipes: &Vec<Recipe>, target: &ItemSet) -> (result: (
    Vec<Recipe>,
    Vec<ItemId>,
))
    ensures
        exists|order: Seq<int>, keys: Seq<Seq<int>>| prioritized(recipes@, target@, order, keys, result.0@),
        no_duplicates(result.1@),
        forall|x: ItemId| #[trigger] result.1@.contains(x) <==> mentioned_by(result.0@, x),
{
    let search = RouteSearch::walk(recipes, target);
    let ghost rmap = search.rmap@;
    proof {
        reveal(RouteSearch::wf);
    }
    // the recipes whose identity got a key, in the given order
    let mut kept: Vec<(Recipe, RecipePriorityKey)> = Vec::new();
    let ghost mut pos: Seq<int> = Seq::empty();
    let mut j: usize = 0;
    while j < recipes.len()
        invariant
            j <= recipes.len(),
            rmap == search.rmap@,
            crate::route_keys::table_matches(search.best_recipe@, rmap),
            kept@.len() == pos.len(),
            forall|i: int| 0 <= i < pos.len() ==> 0 <= #[trigger] pos[i] < j,
            forall|i: int, l: int| 0 <= i < l < pos.len() ==> pos[i] < pos[l],
            forall|i: int| 0 <= i < pos.len() ==> (#[trigger] kept@[i]).0@ == recipes@[pos[i]]@ && rmap.dom().contains(
                recipes@[pos[i]].unique_id,
            ) && kept@[i].1.key() == rmap[recipes@[pos[i]].unique_id],
            forall|jj: int| 0 <= jj < j ==> (pos.contains(jj) <==> rmap.dom().contains(#[trigger] recipes@[jj].unique_id)),
        decreases recipes.len() - j,
    {
        let id = recipes[j].unique_id;
        let ghost pos_before = pos;
        proof {
            lemma_key_index(search.best_recipe@, id);
        }
        match find_key(&search.best_recipe, id) {
            Some(q) => {
                let entry = (recipes[j].clone(), search.best_recipe[q].1.clone());
                kept.push(entry);
                proof {
                    pos = pos.push(j as int);
                    assert(rmap[search.best_recipe@[q as int].0] == search.best_recipe@[q as int].1.key());
                }
            },
            None => {},
        }
        proof {
            assert forall|jj: int| 0 <= jj < j + 1 implies (pos.contains(jj) <==> rmap.dom().contains(
                #[trigger] recipes@[jj].unique_id,
            )) by {
                if jj < j {
                    if pos.contains(jj) {
                        let i = choose|i: int| 0 <= i < pos.len() && pos[i] == jj;
                        assert(i < pos_before.len());
                        assert(pos_before[i] == jj);
                    }
                    if pos_before.contains(jj) {
                        let i = choose|i: int| 0 <= i < pos_before.len() && pos_before[i] == jj;
                        assert(pos[i] == jj);
                    }
                } else {
                    if rmap.dom().contains(id) {
                        assert(pos[pos.len() - 1] == jj);
                    } else {
                        assert(pos == pos_before);
                        if pos.contains(jj) {
                            let i = choose|i: int| 0 <= i < pos.len() && pos[i] == jj;
                        }
                    }
                }
            }
        }
        j = j + 1;
    }
    // stable insertion sort by key
    let mut sorted: Vec<(Recipe, RecipePriorityKey)> = Vec::new();
    let ghost mut ord: Seq<int> = Seq::empty();
    let mut m: usize = 0;
    while m < kept.len()
        invariant
            m <= kept@.len(),
            kept@.len() == pos.len(),
            forall|i: int, l: int| 0 <= i < l < pos.len() ==> pos[i] < pos[l],
            forall|i: int| 0 <= i < pos.len() ==> 0 <= #[trigger] pos[i] < recipes.len(),
            forall|i: int| 0 <= i < pos.len() ==> (#[trigger] kept@[i]).0@ == recipes@[pos[i]]@ && rmap.dom().contains(
                recipes@[pos[i]].unique_id,
            ) && kept@[i].1.key() == rmap[recipes@[pos[i]].unique_id],
            sorted@.len() == ord.len(),
            ord.len() == m,
            forall|i: int| 0 <= i < ord.len() ==> (#[trigger] sorted@[i]).0@ == recipes@[ord[i]]@ && sorted@[i].1.key()
                == rmap[recipes@[ord[i]].unique_id],
            forall|i: int| 0 <= i < ord.len() ==> pos.take(m as int).contains(#[trigger] ord[i]),
            forall|a: int| 0 <= a < m ==> ord.contains(#[trigger] pos[a]),
            forall|i: int, l: int| 0 <= i < l < ord.len() ==> ord[i] != ord[l],
            keys_sorted(sorted@.map_values(|e: (Recipe, RecipePriorityKey)| e.1.key())),
            ties_in_order(sorted@.map_values(|e: (Recipe, RecipePriorityKey)| e.1.key()), ord),
        decreases kept.len() - m,
    {
        let p = insert_position(&sorted, &kept[m].1);
        let entry = (kept[m].0.clone(), kept[m].1.clone());
        let ghost keys_before = sorted@.map_values(|e: (Recipe, RecipePriorityKey)| e.1.key());
        let ghost before = sorted@;
        let ghost o_new = pos[m as int];
        proof {
            assert forall|a: int| 0 <= a < ord.len() implies #[trigger] ord[a] < o_new by {
                assert(pos.take(m as int).contains(ord[a]));
                let i = choose|i: int| 0 <= i < m && pos.take(m as int)[i] == ord[a];
                assert(pos[i] == ord[a]);
            }
            assert forall|a: int| 0 <= a < p implies !lex_lt(kept@[m as int].1.key(), #[trigger] keys_before[a]) by {
                assert(keys_before[a] == before[a].1.key());
            }
            lemma_insert_sorted(keys_before, ord, p as int, kept@[m as int].1.key(), o_new);
        }
        sorted.insert(p, entry);
        proof {
            let ord2 = ord.insert(p as int, o_new);
            assert(sorted@.map_values(|e: (Recipe, RecipePriorityKey)| e.1.key()) =~= keys_before.insert(
                p as int,
                kept@[m as int].1.key(),
            ));
            assert forall|i: int| 0 <= i < ord2.len() implies (#[trigger] sorted@[i]).0@ == recipes@[ord2[i]]@
                && sorted@[i].1.key() == rmap[recipes@[ord2[i]].unique_id] by {
                if i < p {
                    assert(sorted@[i] == before[i]);
                } else if i > p {
                    assert(sorted@[i] == before[i - 1]);
                }
            }
            assert forall|i: int| 0 <= i < ord2.len() implies pos.take(m + 1).contains(#[trigger] ord2[i]) by {
                if i == p {
                    assert(pos.take(m + 1)[m as int] == o_new);
                } else {
                    let oi = if i < p { ord[i] } else { ord[i - 1] };
                    assert(ord2[i] == oi);
                    assert(pos.take(m as int).contains(oi));
                    let c = choose|c: int| 0 <= c < m && pos.take(m as int)[c] == oi;
                    assert(pos.take(m + 1)[c] == oi);
                }
            }
            assert forall|a: int| 0 <= a < m + 1 implies ord2.contains(#[trigger] pos[a]) by {
                if a == m {
                    assert(ord2[p as int] == pos[a]);
                } else {
                    assert(ord.contains(pos[a]));
                    let i = choose|i: int| 0 <= i < ord.len() && ord[i] == pos[a];
                    if i < p {
                        assert(ord2[i] == pos[a]);
                    } else {
                        assert(ord2[i + 1] == pos[a]);
                    }
                }
            }
            assert forall|i: int, l: int| 0 <= i < l < ord2.len() implies ord2[i] != ord2[l] by {
                if i == p {
                    assert(ord2[l] == ord[l - 1]);
                    assert(ord[l - 1] < o_new);
                } else if l == p {
                    assert(ord2[i] == ord[i]);
                    assert(ord[i] < o_new);
                } else {
                    let ii = if i < p { i } else { i - 1 };
                    let ll = if l < p { l } else { l - 1 };
                    assert(ord2[i] == ord[ii] && ord2[l] == ord[ll]);
                }
            }
            ord = ord2;
        }
        m = m + 1;
    }
    // rank the recipes by their place
    let mut out: Vec<Recipe> = Vec::new();
    let mut i: usize = 0;
    while i < sorted.len()
        invariant
            i <= sorted@.len(),
            out@.len() == i,
            forall|a: int| 0 <= a < i ==> ranked_as(sorted@[a].0, #[trigger] out@[a], a),
        decreases sorted.len() - i,
    {
        let mut r = sorted[i].0.clone();
        r.effective_priority = Some(i as isize);
        out.push(r);
        i = i + 1;
    }
    let no_target = ItemSet { items: Vec::new() };
    let no_extras: Vec<ItemId> = Vec::new();
    let items = collect_relevant_item_ids(&out, &no_target, &no_extras);
    proof {
        assert forall|x: ItemId| #[trigger] items@.contains(x) <==> mentioned_by(out@, x) by {
            assert(!has_key(no_target@, x));
            assert(!no_extras@.contains(x));
        }
        let keys = sorted@.map_values(|e: (Recipe, RecipePriorityKey)| e.1.key());
        assert(pos.take(pos.len() as int) =~= pos);
        assert forall|a: int| 0 <= a < out@.len() implies ranked_as(recipes@[ord[a]], #[trigger] out@[a], a) by {
            assert(sorted@[a].0@ == recipes@[ord[a]]@);
        }
        assert forall|a: int| 0 <= a < out@.len() implies id_reached(recipes@, target@, (#[trigger] out@[a]).unique_id)
            && route_key_of(recipes@, target@, out@[a].unique_id, keys[a]) by {
            assert(sorted@[a].0@ == recipes@[ord[a]]@);
            let c = choose|c: int| 0 <= c < pos.len() && pos[c] == ord[a];
            assert(rmap.dom().contains(recipes@[pos[c]].unique_id));
            lemma_walk_sound(recipes@, target@, search, out@[a].unique_id);
        }
        assert forall|j: int| 0 <= j < recipes.len() implies (ord.contains(j) <==> rmap.dom().contains(
            #[trigger] recipes@[j].unique_id,
        )) by {
            if ord.contains(j) {
                let a = choose|a: int| 0 <= a < ord.len() && ord[a] == j;
                assert(pos.contains(ord[a]));
            }
            if pos.contains(j) {
                let c = choose|c: int| 0 <= c < pos.len() && pos[c] == j;
                assert(ord.contains(pos[c]));
            }
        }
        assert forall|j: int, t: ItemId| 0 <= j < recipes.len() && has_key(target@, t) && #[trigger] has_key(recipes@[j].output@, t)
            implies ord.contains(j) by {
            let q = choose|q: int| 0 <= q < target@.len() && #[trigger] target@[q].0 == t;
            assert(search.kmap@.dom().contains(target@[q].0));
            assert(closed(recipes@, search.rmap@, t));
            assert(rmap.dom().contains(recipes@[j].unique_id));
        }
        if ids_determine_items(recipes@) {
            assert forall|j: int| 0 <= j < recipes.len() && #[trigger] recipe_reached(recipes@, target@, j) implies ord.contains(j) by {
                lemma_walk_complete(recipes@, target@, search, j);
                assert(rmap.dom().contains(recipes@[j].unique_id));
            }
        }
        assert forall|a: int, l: int| 0 <= a < out@.len() && 0 <= l < out@.len() && #[trigger] out@[a].unique_id
            == #[trigger] out@[l].unique_id implies keys[a] == keys[l] by {
            assert(sorted@[a].0@ == recipes@[ord[a]]@);
            assert(sorted@[l].0@ == recipes@[ord[l]]@);
        }
        assert forall|a: int| 0 <= a < ord.len() implies 0 <= #[trigger] ord[a] < recipes.len() by {
            let c = choose|c: int| 0 <= c < pos.len() && pos.take(pos.len() as int)[c] == ord[a];
        }
        lemma_keys_fit_item_keys(recipes@, target@, search, ord, sorted@, out@, keys);
        assert(prioritized(recipes@, target@, ord, keys, out@));
    }
    let result = (out, items);
    proof {
        let keys = sorted@.map_values(|e: (Recipe, RecipePriorityKey)| e.1.key());
        assert(prioritized(recipes@, target@, ord, keys, result.0@));
    }
    result
}

/// The item keys of a finished walk show that the ranked recipes' keys are
/// locally least.
proof fn lemma_keys_fit_item_keys(
    recipes: Seq<Recipe>,
    target: Seq<(ItemId, usize)>,
    search: RouteSearch,
    ord: Seq<int>,
    sorted: Seq<(Recipe, RecipePriorityKey)>,
    out: Seq<Recipe>,
    keys: Seq<Seq<int>>,
)
    requires
        keys == sorted.map_values(|e: (Recipe, RecipePriorityKey)| e.1.key()),
        search.wf(recipes, target),
        forall|y: ItemId| #[trigger] search.kmap@.dom().contains(y) ==> settled(recipes, search.kmap@, search.rmap@, y),
        crate::route_keys::inputs_bounded(recipes, search.kmap@, search.rmap@, search.rroutes@),
        out.len() == sorted.len(),
        ord.len() == sorted.len(),
        forall|a: int| 0 <= a < ord.len() ==> 0 <= #[trigger] ord[a] < recipes.len(),
        forall|a: int| 0 <= a < ord.len() ==> (#[trigger] sorted[a]).0@ == recipes[ord[a]]@ && sorted[a].1.key()
            == search.rmap@[recipes[ord[a]].unique_id],
        forall|a: int| 0 <= a < out.len() ==> ranked_as(sorted[a].0, #[trigger] out[a], a),
        forall|j: int| 0 <= j < recipes.len() ==> (ord.contains(j) <==> search.rmap@.dom().contains(
            #[trigger] recipes[j].unique_id,
        )),
    ensures
        keys_fit_item_keys(recipes, target, out, keys),
{
    lemma_walk_item_keys(recipes, target, search);
    let ikeys = search.kmap@;
    assert forall|a: int, y: ItemId|
        0 <= a < out.len() && #[trigger] has_key(out[a].output@, y) && #[trigger] ikeys.dom().contains(y) implies lex_le(
        keys[a],
        ikeys[y].push(out[a].base_priority as int),
    ) by {
        assert(sorted[a].0@ == recipes[ord[a]]@);
        assert(ranked_as(sorted[a].0, out[a], a));
        assert(has_key(recipes[ord[a]].output@, y));
        assert(settled(recipes, search.kmap@, search.rmap@, y));
    }
    assert forall|a: int| 0 <= a < out.len() implies recipe_key_origin(recipes, target, ikeys, (#[trigger] out[a]).unique_id, keys[a]) by {
        assert(sorted[a].0@ == recipes[ord[a]]@);
        assert(ranked_as(sorted[a].0, out[a], a));
        assert(ord.contains(ord[a]));
        assert(search.rmap@.dom().contains(recipes[ord[a]].unique_id));
    }
    assert(item_keys_bound(recipes, target, ikeys, out, keys));
    reveal(keys_fit_item_keys);
}

/// Returns the relevant items that no recipe produces, in the order given:
/// these are supplied from outside.
pub fn collect_non_producible_items(recipes: &Vec<Recipe>, relevant_item_ids: &Vec<ItemId>) -> (items: Vec<ItemId>)
    ensures
        items@ == relevant_item_ids@.filter(|x: ItemId| !producible(recipes@, x)),
{
    let mut items: Vec<ItemId> = Vec::new();
    let mut i: usize = 0;
    while i < relevant_item_ids.len()
        invariant
            i <= relevant_item_ids.len(),
            items@ == relevant_item_ids@.take(i as int).filter(|x: ItemId| !producible(recipes@, x)),
        decreases relevant_item_ids.len() - i,
    {
        let item = relevant_item_ids[i];
        let mut produced = false;
        let mut j: usize = 0;
        while j < recipes.len()
            invariant
                j <= recipes.len(),
                produced == exists|q: int| 0 <= q < j && count_of(#[trigger] recipes@[q]@.output, item) > 0,
            decreases recipes.len() - j,
        {
            if recipes[j].output.count(item) > 0 {
                produced = true;
            }
            proof {
                if count_of(recipes@[j as int]@.output, item) > 0 {
                    assert(0 <= j < j + 1);
                }
                if exists|q: int| 0 <= q < j + 1 && count_of(#[trigger] recipes@[q]@.output, item) > 0 {
                    let q = choose|q: int| 0 <= q < j + 1 && count_of(#[trigger] recipes@[q]@.output, item) > 0;
                    if q < j {
                        assert(0 <= q < j);
                    }
                }
            }
            j = j + 1;
        }
        if !produced {
            items.push(item);
        }
        proof {
            let t = relevant_item_ids@.take(i + 1);
            assert(t.drop_last() =~= relevant_item_ids@.take(i as int));
            assert(t.last() == item);
            reveal(Seq::filter);
            assert(produced == producible(recipes@, item));
        }
        i = i + 1;
    }
    assert(relevant_item_ids@.take(relevant_item_ids@.len() as int) =~= relevant_item_ids@);
    items
}

/// The ordering value of a recipe's effective priority (unset ranks last).
pub open spec fn priority_rank(r: RecipeView) -> isize {
    match r.effective_priority {
        Some(p) => p,
        None => isize::MAX,
    }
}

fn rank_of(r: &Recipe) -> (k: isize)
    ensures
        k == priority_rank(r@),
{
    match r.effective_priority {
        Some(p) => p,
        None => isize::MAX,
    }
}

/// Indices `0..n` sorted by effective priority, stably.
fn priority_order(recipes: &Vec<Recipe>) -> (order: Vec<usize>)
    ensures
        order@.len() == recipes.len(),
        no_duplicates(order@),
        forall|k: int| 0 <= k < order@.len() ==> #[trigger] order@[k] < recipes.len(),
        forall|k: int, l: int| 0 <= k < l < order@.len() ==> priority_rank(recipes@[order@[k] as int]@)
            <= priority_rank(recipes@[order@[l] as int]@),
        forall|k: int, l: int| 0 <= k < l < order@.len() && priority_rank(recipes@[order@[k] as int]@)
            == priority_rank(recipes@[order@[l] as int]@) ==> order@[k] < order@[l],
{
    let mut order: Vec<usize> = Vec::new();
    let mut i: usize = 0;
    while i < recipes.len()
        invariant
            i <= recipes.len(),
            order@.len() == i,
            no_duplicates(order@),
            forall|k: int| 0 <= k < order@.len() ==> #[trigger] order@[k] < i,
            forall|k: int, l: int| 0 <= k < l < order@.len() ==> priority_rank(recipes@[order@[k] as int]@)
                <= priority_rank(recipes@[order@[l] as int]@),
            forall|k: int, l: int| 0 <= k < l < order@.len() && priority_rank(recipes@[order@[k] as int]@)
                == priority_rank(recipes@[order@[l] as int]@) ==> order@[k] < order@[l],
        decreases recipes.len() - i,
    {
        let key = rank_of(&recipes[i]);
        let mut j: usize = 0;
        while j < order.len() && rank_of(&recipes[order[j]]) <= key
            invariant
                j <= order.len(),
                forall|k: int| 0 <= k < order@.len() ==> #[trigger] order@[k] < recipes.len(),
                key == priority_rank(recipes@[i as int]@),
                forall|k: int| 0 <= k < j ==> priority_rank(recipes@[order@[k] as int]@) <= key,
            decreases order.len() - j,
        {
            j = j + 1;
        }
        let ghost before = order@;
        proof {
            assert forall|k: int| j <= k < before.len() implies key <= priority_rank(
                recipes@[before[k] as int]@,
            ) by {
                if j < before.len() {
                    assert(key < priority_rank(recipes@[before[j as int] as int]@));
                    assert(priority_rank(recipes@[before[j as int] as int]@) <= priority_rank(
                        recipes@[before[k] as int]@,
                    ));
                }
            }
        }
        order.insert(j, i);
        proof {
            assert forall|k: int| 0 <= k < order@.len() implies #[trigger] order@[k] < i + 1 by {
                if k < j {
                    assert(order@[k] == before[k]);
                } else if k > j {
                    assert(order@[k] == before[k - 1]);
                }
            }
            assert forall|k: int, l: int| 0 <= k < l < order@.len() implies order@[k] != order@[l] by {
                if k < j {
                    assert(order@[k] == before[k]);
                } else if k > j {
                    assert(order@[k] == before[k - 1]);
                }
                if l < j {
                    assert(order@[l] == before[l]);
                } else if l > j {
                    assert(order@[l] == before[l - 1]);
                }
            }
            assert forall|k: int, l: int| 0 <= k < l < order@.len() implies priority_rank(
                recipes@[order@[k] as int]@,
            ) <= priority_rank(recipes@[order@[l] as int]@) by {
                if k < j {
                    assert(order@[k] == before[k]);
                } else if k > j {
                    assert(order@[k] == before[k - 1]);
                }
                if l < j {
                    assert(order@[l] == before[l]);
                } else if l > j {
                    assert(order@[l] == before[l - 1]);
                }
            }
            assert forall|k: int, l: int| 0 <= k < l < order@.len() && priority_rank(
                recipes@[order@[k] as int]@,
            ) == priority_rank(recipes@[order@[l] as int]@) implies order@[k] < order@[l] by {
                if k < j {
                    assert(order@[k] == before[k]);
                } else if k > j {
                    assert(order@[k] == before[k - 1]);
                }
                if l < j {
                    assert(order@[l] == before[l]);
                } else if l > j {
                    assert(order@[l] == before[l - 1]);
                }
                if k == j {
                    assert(key < priority_rank(recipes@[before[j as int] as int]@));
                    assert(priority_rank(recipes@[before[j as int] as int]@) <= priority_rank(
                        recipes@[before[l - 1] as int]@,
                    ));
                }
            }
        }
        i = i + 1;
    }
    order
}

/// Whether some entry key of `set` is missing from `seen`.
fn has_unseen_key(set: &ItemSet, seen: &Vec<ItemId>) -> (b: bool)
    ensures
        b == exists|k: int| 0 <= k < set@.len() && !seen@.contains(#[trigger] set@[k].0),
{
    let mut i: usize = 0;
    while i < set.items.len()
        invariant
            i <= set.items.len(),
            forall|k: int| 0 <= k < i ==> seen@.contains(#[trigger] set@[k].0),
        decreases set.items.len() - i,
    {
        let item = set.items[i].0;
        let mut found = false;
        let mut j: usize = 0;
        while j < seen.len()
            invariant
                j <= seen.len(),
                found == exists|q: int| 0 <= q < j && seen@[q] == item,
            decreases seen.len() - j,
        {
            if seen[j] == item {
                found = true;
            }
            j = j + 1;
        }
        if !found {
            assert(!seen@.contains(set@[i as int].0));
            return true;
        }
        i = i + 1;
    }
    false
}

/// Whether `v` holds `x`.
fn vec_contains(v: &Vec<usize>, x: usize) -> (b: bool)
    ensures
        b == v@.contains(x),
{
    let mut i: usize = 0;
    while i < v.len()
        invariant
            i <= v.len(),
            forall|k: int| 0 <= k < i ==> v@[k] != x,
        decreases v.len() - i,
    {
        if v[i] == x {
            return true;
        }
        i = i + 1;
    }
    false
}

/// Output items of the pioneers among the first `i` recipes of `order`.
pub open spec fn pioneer_outputs(recipes: Seq<Recipe>, order: Seq<usize>, i: nat) -> Set<ItemId>
    decreases i,
{
    if i == 0 {
        Set::empty()
    } else {
        let before = pioneer_outputs(recipes, order, (i - 1) as nat);
        let r = recipes[order[i - 1] as int]@;
        if adds_output(r, before) {
            before.union(Set::new(|x: ItemId| has_key(r.output, x)))
        } else {
            before
        }
    }
}

/// The recipe lists an output item outside `seen`.
pub open spec fn adds_output(r: RecipeView, seen: Set<ItemId>) -> bool {
    exists|q: int| 0 <= q < r.output.len() && !seen.contains(#[trigger] r.output[q].0)
}

/// The recipe at position `k` of `order` adds an output item that no earlier
/// pioneer produces.
pub open spec fn pioneer(recipes: Seq<Recipe>, order: Seq<usize>, k: int) -> bool {
    adds_output(recipes[order[k] as int]@, pioneer_outputs(recipes, order, k as nat))
}

/// Identities of the pioneers.
pub open spec fn pioneer_id(recipes: Seq<Recipe>, order: Seq<usize>, id: usize) -> bool {
    exists|k: int| 0 <= k < order.len() && pioneer(recipes, order, k) && #[trigger] recipes[order[k] as int].unique_id == id
}

/// `order` lists every recipe index once, by nondecreasing effective priority;
/// recipes of equal priority keep their input order.
pub open spec fn is_priority_order(recipes: Seq<Recipe>, order: Seq<usize>) -> bool {
    &&& order.len() == recipes.len()
    &&& no_duplicates(order)
    &&& forall|k: int| 0 <= k < order.len() ==> #[trigger] order[k] < recipes.len()
    &&& forall|k: int, l: int| 0 <= k < l < order.len() ==> priority_rank(recipes[order[k] as int]@)
        <= priority_rank(recipes[order[l] as int]@)
    &&& forall|k: int, l: int| 0 <= k < l < order.len() && priority_rank(recipes[order[k] as int]@)
        == priority_rank(recipes[order[l] as int]@) ==> order[k] < order[l]
}

/// The recipes, in `order`, whose identity is that of a pioneer.
pub open spec fn greedy_selection(recipes: Seq<Recipe>, order: Seq<usize>) -> Seq<RecipeView> {
    order.map_values(|j: usize| recipes[j as int]@).filter(|r: RecipeView| pioneer_id(recipes, order, r.unique_id))
}

/// Keeps, in effective-priority order, the recipes that add at least one output
/// item not produced by a recipe kept before them (and recipes sharing an
/// identity with a kept one): lower-priority alternatives are dropped.
pub fn select_top_priority_recipes_per_output_item(recipes: &Vec<Recipe>) -> (selected: Vec<Recipe>)
    ensures
        exists|order: Seq<usize>| is_priority_order(recipes@, order) && selected@.map_values(|r: Recipe| r@)
            == greedy_selection(recipes@, order),
        selected@.len() <= recipes@.len(),
{
    let order = priority_order(recipes);
    let mut seen_output_items: Vec<ItemId> = Vec::new();
    let mut selected_ids: Vec<usize> = Vec::new();
    let mut i: usize = 0;
    while i < order.len()
        invariant
            i <= order.len(),
            is_priority_order(recipes@, order@),
            no_duplicates(seen_output_items@),
            no_duplicates(selected_ids@),
            forall|x: ItemId| #[trigger] seen_output_items@.contains(x) <==> pioneer_outputs(
                recipes@,
                order@,
                i as nat,
            ).contains(x),
            forall|id: usize| #[trigger] selected_ids@.contains(id) <==> exists|k: int|
                0 <= k < i && pioneer(recipes@, order@, k) && #[trigger] recipes@[order@[k] as int].unique_id == id,
        decreases order.len() - i,
    {
        let recipe = &recipes[order[i]];
        let ghost seen_set = pioneer_outputs(recipes@, order@, i as nat);
        let adds = has_unseen_key(&recipe.output, &seen_output_items);
        proof {
            assert(adds == adds_output(recipe@, seen_set)) by {
                if adds {
                    let q = choose|q: int| 0 <= q < recipe@.output.len() && !seen_output_items@.contains(
                        #[trigger] recipe@.output[q].0,
                    );
                    assert(!seen_set.contains(recipe@.output[q].0));
                }
                if adds_output(recipe@, seen_set) {
                    let q = choose|q: int| 0 <= q < recipe@.output.len() && !seen_set.contains(
                        #[trigger] recipe@.output[q].0,
                    );
                    assert(!seen_output_items@.contains(recipe@.output[q].0));
                }
            }
        }
        let ghost before_ids = selected_ids@;
        if adds {
            push_unique(&mut selected_ids, recipe.unique_id);
            push_unique_keys(&mut seen_output_items, &recipe.output);
        }
        proof {
            let next_set = pioneer_outputs(recipes@, order@, (i + 1) as nat);
            assert(pioneer(recipes@, order@, i as int) == adds);
            assert forall|x: ItemId| #[trigger] seen_output_items@.contains(x) <==> next_set.contains(x) by {}
            assert forall|id: usize| #[trigger] selected_ids@.contains(id) <==> exists|k: int|
                0 <= k < i + 1 && pioneer(recipes@, order@, k) && #[trigger] recipes@[order@[k] as int].unique_id
                == id by {
                if exists|k: int|
                    0 <= k < i + 1 && pioneer(recipes@, order@, k) && #[trigger] recipes@[order@[k] as int].unique_id
                    == id {
                    let k = choose|k: int|
                        0 <= k < i + 1 && pioneer(recipes@, order@, k) && #[trigger] recipes@[order@[k] as int].unique_id
                        == id;
                    if k < i {
                        assert(before_ids.contains(id));
                    }
                }
                if before_ids.contains(id) {
                    let k = choose|k: int|
                        0 <= k < i && pioneer(recipes@, order@, k) && #[trigger] recipes@[order@[k] as int].unique_id
                        == id;
                    assert(0 <= k < i + 1);
                }
                if adds && id == recipe.unique_id {
                    assert(recipes@[order@[i as int] as int].unique_id == id);
                }
            }
        }
        i = i + 1;
    }
    let ghost all_views = order@.map_values(|j: usize| recipes@[j as int]@);
    let ghost keep = |r: RecipeView| pioneer_id(recipes@, order@, r.unique_id);
    let mut selected: Vec<Recipe> = Vec::new();
    let mut k: usize = 0;
    while k < order.len()
        invariant
            k <= order.len(),
            is_priority_order(recipes@, order@),
            all_views == order@.map_values(|j: usize| recipes@[j as int]@),
            keep == (|r: RecipeView| pioneer_id(recipes@, order@, r.unique_id)),
            forall|id: usize| #[trigger] selected_ids@.contains(id) <==> pioneer_id(recipes@, order@, id),
            selected@.map_values(|r: Recipe| r@) == all_views.take(k as int).filter(keep),
            selected@.len() <= k,
        decreases order.len() - k,
    {
        let recipe = &recipes[order[k]];
        let keep_it = vec_contains(&selected_ids, recipe.unique_id);
        let ghost before = selected@;
        if keep_it {
            selected.push(recipe.clone());
        }
        proof {
            reveal(Seq::filter);
            let t = all_views.take(k + 1);
            assert(t.drop_last() =~= all_views.take(k as int));
            assert(t.last() == recipe@);
            assert(keep(recipe@) == keep_it);
            if keep_it {
                assert(selected@.map_values(|r: Recipe| r@) =~= before.map_values(|r: Recipe| r@).push(recipe@));
            }
        }
        k = k + 1;
    }
    assert(all_views.take(order@.len() as int) =~= all_views);
    selected
}

/// An output item of `a` is an input that `b` needs.
pub open spec fn feeds(a: RecipeView, b: RecipeView) -> bool {
    exists|k: int| 0 <= k < a.output.len() && count_of(b.input, #[trigger] a.output[k].0) > 0
}

/// A directed edge between recipe positions.
pub open spec fn edge(recipes: Seq<Recipe>, a: usize, b: usize) -> bool {
    feeds(recipes[a as int]@, recipes[b as int]@)
}

/// A path of distinct positions following edges.
pub open spec fn simple_path(recipes: Seq<Recipe>, p: Seq<usize>) -> bool {
    &&& forall|k: int| 0 <= k < p.len() ==> #[trigger] p[k] < recipes.len()
    &&& no_duplicates(p)
    &&& forall|k: int| 0 <= k < p.len() - 1 ==> edge(recipes, #[trigger] p[k], p[k + 1])
}

/// A cycle through at least two distinct recipes, each feeding the next and
/// the last feeding the first.
pub open spec fn simple_cycle(recipes: Seq<Recipe>, c: Seq<usize>) -> bool {
    &&& c.len() >= 2
    &&& simple_path(recipes, c)
    &&& edge(recipes, c.last(), c[0])
}

/// The sequence started at position `s` and wrapped around.
pub open spec fn rotate(c: Seq<usize>, s: int) -> Seq<usize> {
    c.skip(s) + c.take(s)
}

/// `m` is the lexicographically least rotation of `c`.
pub open spec fn least_rotation(c: Seq<usize>, m: Seq<usize>) -> bool {
    &&& exists|s: int| 0 <= s < c.len() && m == rotate(c, s)
    &&& forall|s: int| 0 <= s < c.len() ==> !lex_lt(usize_ints(#[trigger] rotate(c, s)), usize_ints(m))
}

/// What the cycle search reports: the least rotations of simple cycles, and
/// every simple cycle through its least rotation.
pub open spec fn cycles_sound(recipes: Seq<Recipe>, found: Seq<Seq<usize>>) -> bool {
    forall|m: int| 0 <= m < found.len() ==> cycle_form(recipes, #[trigger] found[m])
}

/// `m` is the least rotation of some simple cycle.
pub open spec fn cycle_form(recipes: Seq<Recipe>, m: Seq<usize>) -> bool {
    exists|c: Seq<usize>| simple_cycle(recipes, c) && least_rotation(c, m)
}

fn recipe_outputs_feed_recipe_inputs(from: &Recipe, to: &Recipe) -> (b: bool)
    ensures
        b == feeds(from@, to@),
{
    let mut k: usize = 0;
    while k < from.output.items.len()
        invariant
            k <= from.output.items.len(),
            forall|q: int| 0 <= q < k ==> count_of(to@.input, #[trigger] from@.output[q].0) == 0,
        decreases from.output.items.len() - k,
    {
        if to.input.count(from.output.items[k].0) > 0 {
            assert(count_of(to@.input, from@.output[k as int].0) > 0);
            return true;
        }
        k = k + 1;
    }
    false
}

/// Rotates the cycle so that equal cycles found from different starts share
/// one ordering: the lexicographically least rotation.
fn canonicalize_cycle_indices(cycle: &Vec<usize>) -> (best: Vec<usize>)
    requires
        cycle@.len() > 0,
    ensures
        least_rotation(cycle@, best@),
{
    let n = cycle.len();
    let mut best = copy_indices(cycle);
    proof {
        assert(rotate(cycle@, 0) =~= cycle@);
        lemma_lex_irreflexive(usize_ints(best@));
        assert forall|s: int| 0 <= s < 1 implies !lex_lt(usize_ints(#[trigger] rotate(cycle@, s)), usize_ints(best@)) by {
            assert(s == 0);
        }
    }
    let mut shift: usize = 1;
    while shift < n
        invariant
            n == cycle@.len(),
            1 <= shift <= n,
            exists|s: int| 0 <= s < shift && best@ == rotate(cycle@, s),
            forall|s: int| 0 <= s < shift ==> !lex_lt(usize_ints(#[trigger] rotate(cycle@, s)), usize_ints(best@)),
        decreases n - shift,
    {
        let mut rotated: Vec<usize> = Vec::new();
        let mut k: usize = shift;
        while k < n
            invariant
                n == cycle@.len(),
                shift <= k <= n,
                rotated@ == cycle@.subrange(shift as int, k as int),
            decreases n - k,
        {
            rotated.push(cycle[k]);
            assert(cycle@.subrange(shift as int, k + 1) =~= cycle@.subrange(shift as int, k as int).push(cycle@[k as int]));
            k = k + 1;
        }
        let mut k2: usize = 0;
        while k2 < shift
            invariant
                n == cycle@.len(),
                shift < n,
                k2 <= shift,
                rotated@ == cycle@.skip(shift as int) + cycle@.take(k2 as int),
            decreases shift - k2,
        {
            rotated.push(cycle[k2]);
            assert(cycle@.take(k2 + 1) =~= cycle@.take(k2 as int).push(cycle@[k2 as int]));
            assert(cycle@.skip(shift as int) + cycle@.take(k2 + 1) =~= (cycle@.skip(shift as int) + cycle@.take(k2 as int)).push(cycle@[k2 as int]));
            k2 = k2 + 1;
        }
        assert(rotated@ =~= rotate(cycle@, shift as int));
        let ghost old_best = best@;
        if usize_seq_less(&rotated, &best) {
            best = rotated;
            proof {
                assert forall|s: int| 0 <= s < shift + 1 implies !lex_lt(usize_ints(#[trigger] rotate(cycle@, s)), usize_ints(best@)) by {
                    if s < shift {
                        lemma_lex_total(usize_ints(rotate(cycle@, s)), usize_ints(old_best));
                        if lex_lt(usize_ints(rotate(cycle@, s)), usize_ints(best@)) {
                            lemma_lex_transitive(usize_ints(rotate(cycle@, s)), usize_ints(best@), usize_ints(old_best));
                        }
                    } else {
                        lemma_lex_irreflexive(usize_ints(best@));
                    }
                }
                assert(best@ == rotate(cycle@, shift as int));
            }
        } else {
            proof {
                lemma_lex_total(usize_ints(rotated@), usize_ints(best@));
                if usize_ints(rotated@) == usize_ints(best@) {
                    lemma_lex_irreflexive(usize_ints(best@));
                }
            }
        }
        shift = shift + 1;
    }
    best
}

fn copy_indices(v: &Vec<usize>) -> (c: Vec<usize>)
    ensures
        c@ == v@,
{
    let mut c: Vec<usize> = Vec::new();
    let mut i: usize = 0;
    while i < v.len()
        invariant
            i <= v.len(),
            c@ == v@.take(i as int),
        decreases v.len() - i,
    {
        c.push(v[i]);
        assert(v@.take(i + 1) =~= v@.take(i as int).push(v@[i as int]));
        i = i + 1;
    }
    assert(v@.take(v@.len() as int) =~= v@);
    c
}

/// Whether `cycles` already holds `c`.
pub(crate) fn contains_cycle(cycles: &Vec<Vec<usize>>, c: &Vec<usize>) -> (b: bool)
    ensures
        b == exists|m: int| 0 <= m < cycles@.len() && #[trigger] cycles@[m]@ == c@,
{
    let mut m: usize = 0;
    while m < cycles.len()
        invariant
            m <= cycles.len(),
            forall|q: int| 0 <= q < m ==> #[trigger] cycles@[q]@ != c@,
        decreases cycles.len() - m,
    {
        if usize_seq_equal(&cycles[m], c) {
            return true;
        }
        m = m + 1;
    }
    false
}

/// The views of a list of index vectors.
pub open spec fn index_views(v: Seq<Vec<usize>>) -> Seq<Seq<usize>> {
    v.map_values(|x: Vec<usize>| x@)
}

/// Adjacency lists: position `i` lists exactly the positions its recipe feeds.
pub open spec fn adjacency_ok(recipes: Seq<Recipe>, adjacency: Seq<Vec<usize>>) -> bool {
    &&& adjacency.len() == recipes.len()
    &&& forall|i: int, k: int| 0 <= i < adjacency.len() && 0 <= k < adjacency[i]@.len() ==>
        #[trigger] adjacency[i]@[k] < recipes.len() && edge(recipes, i as usize, adjacency[i]@[k])
    &&& forall|i: int, j: usize| 0 <= i < adjacency.len() && j < recipes.len() && edge(recipes, i as usize, j) ==>
        #[trigger] adjacency[i]@.contains(j)
}

/// Depth-first search over simple paths from `start`, recording each path that
/// closes back to `start` (through at least two recipes) in least-rotation form.
#[verifier::rlimit(80)]
fn depth_first_collect_cycles(
    recipes: &Vec<Recipe>,
    start: usize,
    current: usize,
    adjacency: &Vec<Vec<usize>>,
    on_path: &mut Vec<bool>,
    path: &mut Vec<usize>,
    cycles: &mut Vec<Vec<usize>>,
)
    requires
        adjacency_ok(recipes@, adjacency@),
        old(path)@.len() >= 1,
        old(path)@[0] == start,
        old(path)@.last() == current,
        simple_path(recipes@, old(path)@),
        old(on_path)@.len() == recipes.len(),
        forall|v: int| 0 <= v < recipes.len() ==> old(on_path)@[v] == old(path)@.contains(v as usize),
        cycles_sound(recipes@, index_views(old(cycles)@)),
        no_duplicates_seq(index_views(old(cycles)@)),
    ensures
        final(path)@ == old(path)@,
        final(on_path)@ == old(on_path)@,
        cycles_sound(recipes@, index_views(final(cycles)@)),
        no_duplicates_seq(index_views(final(cycles)@)),
        final(cycles)@.len() >= old(cycles)@.len(),
        index_views(final(cycles)@).take(old(cycles)@.len() as int) == index_views(old(cycles)@),
        forall|ext: Seq<usize>| #[trigger] simple_cycle(recipes@, old(path)@ + ext) ==> index_views(final(cycles)@).contains(
            least_rotation_of(old(path)@ + ext),
        ),
    decreases recipes.len() - old(path)@.len(),
{
    let ghost p0 = path@;
    let ghost c0 = index_views(cycles@);
    let ghost adj = adjacency@[current as int]@;
    let mut idx: usize = 0;
    while idx < adjacency[current].len()
        invariant
            adjacency_ok(recipes@, adjacency@),
            current < adjacency@.len(),
            adj == adjacency@[current as int]@,
            idx <= adj.len(),
            path@ == p0,
            on_path@ == old(on_path)@,
            p0 == old(path)@,
            p0.len() >= 1,
            p0[0] == start,
            p0.last() == current,
            simple_path(recipes@, p0),
            on_path@.len() == recipes.len(),
            forall|v: int| 0 <= v < recipes.len() ==> on_path@[v] == p0.contains(v as usize),
            cycles_sound(recipes@, index_views(cycles@)),
            no_duplicates_seq(index_views(cycles@)),
            cycles@.len() >= c0.len(),
            index_views(cycles@).take(c0.len() as int) == c0,
            c0 == index_views(old(cycles)@),
            forall|ext: Seq<usize>| #[trigger] simple_cycle(recipes@, p0 + ext) && covered(adj.take(idx as int), start, ext)
                ==> index_views(cycles@).contains(least_rotation_of(p0 + ext)),
        decreases adj.len() - idx,
    {
        let next = adjacency[current][idx];
        let ghost before = index_views(cycles@);
        proof {
            assert(adj.take(idx as int + 1) =~= adj.take(idx as int).push(next));
        }
        if next == start && path.len() > 1 {
            let canonical = canonicalize_cycle_indices(path);
            proof {
                lemma_least_rotation_unique(p0, canonical@);
            }
            proof {
                assert(index_views(cycles@).take(before.len() as int) =~= before);
            }
            let already = contains_cycle(cycles, &canonical);
            if !already {
                cycles.push(canonical);
                proof {
                    lemma_push_prefix(c0, before, canonical@);
                }
            }
            proof {
                if already {
                    let m = choose|m: int| 0 <= m < cycles@.len() && #[trigger] cycles@[m]@ == canonical@;
                    assert(index_views(cycles@)[m] == canonical@);
                } else {
                    assert(index_views(cycles@) =~= before.push(canonical@));
                    assert(index_views(cycles@)[before.len() as int] == canonical@);
                    assert(simple_cycle(recipes@, p0)) by {
                        assert(edge(recipes@, current, start));
                    }
                    assert forall|a: int, b: int| 0 <= a < b < index_views(cycles@).len() implies index_views(cycles@)[a] != index_views(cycles@)[b] by {
                        if b == before.len() {
                            assert(index_views(cycles@)[a] == before[a]);
                            assert(cycles@[a]@ == before[a]);
                        }
                    }
                    assert(least_rotation(p0, canonical@));
                    assert(cycle_form(recipes@, canonical@));
                }
                assert(index_views(cycles@).contains(canonical@));
                assert(index_views(cycles@).take(before.len() as int) =~= before);
                lemma_prefix_trans(c0, before, index_views(cycles@));
                assert forall|ext: Seq<usize>| #[trigger] simple_cycle(recipes@, p0 + ext) && covered(
                    adj.take(idx + 1),
                    start,
                    ext,
                ) implies index_views(cycles@).contains(least_rotation_of(p0 + ext)) by {
                    lemma_prefix_contains(before, index_views(cycles@), least_rotation_of(p0 + ext));
                    if !covered(adj.take(idx as int), start, ext) {
                        if ext.len() == 0 {
                            assert(p0 + ext =~= p0);
                        } else {
                            assert((p0 + ext)[0] == start);
                            assert((p0 + ext)[p0.len() as int] == ext[0]);
                        }
                    }
                }
            }
        } else if on_path[next] {
            proof {
                assert forall|ext: Seq<usize>| #[trigger] simple_cycle(recipes@, p0 + ext) && covered(
                    adj.take(idx + 1),
                    start,
                    ext,
                ) implies index_views(cycles@).contains(least_rotation_of(p0 + ext)) by {
                    if !covered(adj.take(idx as int), start, ext) {
                        if ext.len() == 0 {
                            assert(p0 + ext =~= p0);
                            assert(next == start);
                        } else {
                            assert(next == ext[0]);
                            assert(p0.contains(next));
                            let q = choose|q: int| 0 <= q < p0.len() && p0[q] == next;
                            assert((p0 + ext)[q] == next);
                            assert((p0 + ext)[p0.len() as int] == next);
                        }
                    }
                }
            }
        } else if path.len() >= adjacency.len() {
            proof {
                assert forall|ext: Seq<usize>| #[trigger] simple_cycle(recipes@, p0 + ext) && covered(
                    adj.take(idx + 1),
                    start,
                    ext,
                ) implies index_views(cycles@).contains(least_rotation_of(p0 + ext)) by {
                    if !covered(adj.take(idx as int), start, ext) {
                        if ext.len() == 0 {
                            assert(next == start);
                            assert(on_path@[start as int]);
                        } else {
                            lemma_distinct_bounded(p0 + ext, recipes.len() as nat);
                        }
                    }
                }
            }
        } else {
            proof {
                assert(adj.contains(next));
                assert(edge(recipes@, current, next));
            }
            on_path.set(next, true);
            path.push(next);
            proof {
                let p1 = p0.push(next);
                assert(path@ == p1);
                assert(simple_path(recipes@, p1)) by {
                    assert forall|a: int, b: int| 0 <= a < b < p1.len() implies p1[a] != p1[b] by {
                        if b == p0.len() {
                            assert(p0.contains(p0[a]));
                        }
                    }
                }
                assert forall|v: int| 0 <= v < recipes.len() implies on_path@[v] == p1.contains(v as usize) by {
                    if p1.contains(v as usize) && v as usize != next {
                        let q = choose|q: int| 0 <= q < p1.len() && p1[q] == v as usize;
                        assert(p0[q] == v as usize);
                    }
                    if p0.contains(v as usize) {
                        let q = choose|q: int| 0 <= q < p0.len() && p0[q] == v as usize;
                        assert(p1[q] == v as usize);
                    }
                    if v as usize == next {
                        assert(p1[p0.len() as int] == next);
                    }
                }
            }
            depth_first_collect_cycles(recipes, start, next, adjacency, on_path, path, cycles);
            path.pop();
            on_path.set(next, false);
            proof {
                assert(path@ =~= p0);
                assert(on_path@ =~= old(on_path)@) by {
                    assert(!p0.contains(next));
                }
                let p1 = p0.push(next);
                assert(index_views(cycles@).take(c0.len() as int) =~= c0) by {
                    assert(index_views(cycles@).take(before.len() as int) == before);
                    assert(before.take(c0.len() as int) == c0);
                    assert(index_views(cycles@).take(c0.len() as int) =~= before.take(c0.len() as int));
                }
                assert forall|ext: Seq<usize>| #[trigger] simple_cycle(recipes@, p0 + ext) && covered(
                    adj.take(idx + 1),
                    start,
                    ext,
                ) implies index_views(cycles@).contains(least_rotation_of(p0 + ext)) by {
                    lemma_prefix_contains(before, index_views(cycles@), least_rotation_of(p0 + ext));
                    if !covered(adj.take(idx as int), start, ext) {
                        if ext.len() == 0 {
                            assert(next == start);
                            assert(on_path@[start as int]);
                        } else {
                            assert(ext[0] == next);
                            assert(p1 + ext.drop_first() =~= p0 + ext);
                            assert(simple_cycle(recipes@, p1 + ext.drop_first()));
                        }
                    }
                }
            }
        }
        idx = idx + 1;
    }
    proof {
        assert(adj.take(adj.len() as int) =~= adj);
        assert forall|ext: Seq<usize>| #[trigger] simple_cycle(recipes@, p0 + ext) implies index_views(cycles@).contains(
            least_rotation_of(p0 + ext),
        ) by {
            let full = p0 + ext;
            if ext.len() == 0 {
                assert(full =~= p0);
                assert(edge(recipes@, current, start));
                assert(adj.contains(start));
            } else {
                assert(full[p0.len() - 1] == current);
                assert(full[p0.len() as int] == ext[0]);
                assert(edge(recipes@, current, ext[0]));
                assert(adj.contains(ext[0]));
            }
            assert(covered(adj, start, ext));
        }
    }
}

proof fn lemma_push_prefix(c0: Seq<Seq<usize>>, before: Seq<Seq<usize>>, x: Seq<usize>)
    requires
        before.len() >= c0.len(),
        before.take(c0.len() as int) == c0,
    ensures
        before.push(x).take(c0.len() as int) == c0,
        before.push(x).take(before.len() as int) == before,
{
    assert(before.push(x).take(c0.len() as int) =~= before.take(c0.len() as int));
    assert(before.push(x).take(before.len() as int) =~= before);
}

proof fn lemma_prefix_trans(c0: Seq<Seq<usize>>, b: Seq<Seq<usize>>, c: Seq<Seq<usize>>)
    requires
        b.len() >= c0.len(),
        b.take(c0.len() as int) == c0,
        c.len() >= b.len(),
        c.take(b.len() as int) == b,
    ensures
        c.take(c0.len() as int) == c0,
{
    assert(c.take(c0.len() as int) =~= b.take(c0.len() as int));
}

/// The extension starts with a neighbour already handled.
pub open spec fn covered(handled: Seq<usize>, start: usize, ext: Seq<usize>) -> bool {
    if ext.len() == 0 {
        handled.contains(start)
    } else {
        handled.contains(ext[0])
    }
}

proof fn lemma_prefix_contains(a: Seq<Seq<usize>>, b: Seq<Seq<usize>>, x: Seq<usize>)
    requires
        b.take(a.len() as int) == a,
        a.len() <= b.len(),
    ensures
        a.contains(x) ==> b.contains(x),
{
    if a.contains(x) {
        let q = choose|q: int| 0 <= q < a.len() && a[q] == x;
        assert(b[q] == b.take(a.len() as int)[q]);
    }
}

/// A sequence of distinct numbers below `n` has at most `n` elements.
pub proof fn lemma_distinct_bounded(s: Seq<usize>, n: nat)
    requires
        no_duplicates(s),
        forall|k: int| 0 <= k < s.len() ==> #[trigger] s[k] < n,
    ensures
        s.len() <= n,
    decreases n,
{
    if n == 0 {
        if s.len() > 0 {
            assert(s[0] < 0);
        }
    } else {
        let top = (n - 1) as usize;
        if s.contains(top) {
            let q = choose|q: int| 0 <= q < s.len() && s[q] == top;
            let t = s.remove(q);
            assert forall|k: int| 0 <= k < t.len() implies #[trigger] t[k] < (n - 1) as nat by {
                if k < q {
                    assert(t[k] == s[k]);
                } else {
                    assert(t[k] == s[k + 1]);
                }
            }
            assert forall|a: int, b: int| 0 <= a < b < t.len() implies t[a] != t[b] by {
                if b < q {
                } else if a < q {
                    assert(t[b] == s[b + 1]);
                } else {
                    assert(t[a] == s[a + 1]);
                    assert(t[b] == s[b + 1]);
                }
            }
            lemma_distinct_bounded(t, (n - 1) as nat);
        } else {
            assert forall|k: int| 0 <= k < s.len() implies #[trigger] s[k] < (n - 1) as nat by {
                if s[k] == top {
                    assert(s.contains(top));
                }
            }
            lemma_distinct_bounded(s, (n - 1) as nat);
        }
    }
}

/// The least rotation is unique.
pub proof fn lemma_least_rotation_unique(c: Seq<usize>, m: Seq<usize>)
    requires
        least_rotation(c, m),
    ensures
        least_rotation_of(c) == m,
{
    let m2 = least_rotation_of(c);
    assert(least_rotation(c, m2));
    let s1 = choose|s: int| 0 <= s < c.len() && m == rotate(c, s);
    let s2 = choose|s: int| 0 <= s < c.len() && m2 == rotate(c, s);
    assert(!lex_lt(usize_ints(rotate(c, s2)), usize_ints(m)));
    assert(!lex_lt(usize_ints(rotate(c, s1)), usize_ints(m2)));
    lemma_lex_total(usize_ints(m), usize_ints(m2));
    assert(m.len() == m2.len());
    assert forall|k: int| 0 <= k < m.len() implies m[k] == m2[k] by {
        assert(usize_ints(m)[k] == usize_ints(m2)[k]);
    }
    assert(m =~= m2);
}


/// No element occurs twice.
pub open spec fn no_duplicates_seq(s: Seq<Seq<usize>>) -> bool {
    forall|i: int, j: int| 0 <= i < j < s.len() ==> s[i] != s[j]
}

/// The least rotation of a sequence.
pub open spec fn least_rotation_of(c: Seq<usize>) -> Seq<usize> {
    choose|m: Seq<usize>| least_rotation(c, m)
}

/// What the loop report states: `found` holds, sorted and without repeats,
/// exactly the least rotations of the simple cycles; `loops` lists their
/// recipes; `in_loop` maps each identity to whether one of its recipes is on a loop.
pub open spec fn loops_describe(
    recipes: Seq<Recipe>,
    found: Seq<Seq<usize>>,
    in_loop: Seq<(usize, bool)>,
    loops: Seq<Vec<Recipe>>,
) -> bool {
    &&& cycles_sound(recipes, found)
    &&& forall|c: Seq<usize>| #[trigger] simple_cycle(recipes, c) ==> found.contains(least_rotation_of(c))
    &&& forall|m: int, l: int| 0 <= m < l < found.len() ==> lex_lt(usize_ints(found[m]), usize_ints(found[l]))
    &&& loops.len() == found.len()
    &&& forall|m: int| 0 <= m < loops.len() ==> lists_recipes_at(recipes, found[m], (#[trigger] loops[m])@)
    &&& keys_distinct(in_loop)
    &&& forall|id: usize| #[trigger] has_key(in_loop, id) <==> exists|j: int| 0 <= j < recipes.len() && recipes[j].unique_id == id
    &&& forall|p: int| 0 <= p < in_loop.len() ==> (#[trigger] in_loop[p]).1 == on_some_loop(recipes, found, in_loop[p].0)
}

/// `listed` holds the recipes at the positions in `cycle`, in order.
pub open spec fn lists_recipes_at(recipes: Seq<Recipe>, cycle: Seq<usize>, listed: Seq<Recipe>) -> bool {
    &&& listed.len() == cycle.len()
    &&& forall|k: int| 0 <= k < cycle.len() ==> cycle[k] < recipes.len() && (#[trigger] listed[k])@ == recipes[cycle[k] as int]@
}

/// Some recipe with identity `id` lies on one of the loops.
pub open spec fn on_some_loop(recipes: Seq<Recipe>, found: Seq<Seq<usize>>, id: usize) -> bool {
    exists|m: int, k: int| 0 <= m < found.len() && 0 <= k < found[m].len() && #[trigger] recipes[found[m][k] as int].unique_id == id
}

/// Finds the loops among recipes that feed each other's inputs (an output of
/// one recipe is a needed input of the next).
///
/// The second result lists every simple cycle through at least two recipes
/// once, rotated to its least form and sorted; the first maps each recipe
/// identity to whether one of its recipes lies on such a loop.
#[verifier::rlimit(60)]
pub fn detect_recipe_cycles(recipes: &Vec<Recipe>) -> (result: (Vec<(usize, bool)>, Vec<Vec<Recipe>>))
    ensures
        exists|found: Seq<Seq<usize>>| loops_describe(recipes@, found, result.0@, result.1@),
{
    let adjacency = build_adjacency(recipes);
    let cycles = collect_all_cycles(recipes, &adjacency);
    let sorted = sort_cycles(cycles);
    let ghost found = index_views(sorted@);
    proof {
        lemma_same_elements_sound(recipes@, index_views(cycles@), found);
    }
    let in_loop_by_recipe = build_in_loop_table(recipes, &sorted);
    let loops = build_loops(recipes, &sorted);
    proof {
        assert forall|c: Seq<usize>| #[trigger] simple_cycle(recipes@, c) implies found.contains(least_rotation_of(c)) by {
            assert(index_views(cycles@).contains(least_rotation_of(c)));
        }
        assert forall|m: int| 0 <= m < loops@.len() implies lists_recipes_at(recipes@, found[m], (#[trigger] loops@[m])@) by {
            assert(found[m] == sorted@[m]@);
        }
    }
    let result = (in_loop_by_recipe, loops);
    proof {
        lemma_loops_describe(recipes@, found, result.0@, result.1@);
    }
    result
}

proof fn lemma_loops_describe(
    recipes: Seq<Recipe>,
    found: Seq<Seq<usize>>,
    in_loop: Seq<(usize, bool)>,
    loops: Seq<Vec<Recipe>>,
)
    requires
        cycles_sound(recipes, found),
        forall|c: Seq<usize>| #[trigger] simple_cycle(recipes, c) ==> found.contains(least_rotation_of(c)),
        forall|m: int, l: int| 0 <= m < l < found.len() ==> lex_lt(usize_ints(found[m]), usize_ints(found[l])),
        loops.len() == found.len(),
        forall|m: int| 0 <= m < loops.len() ==> lists_recipes_at(recipes, found[m], (#[trigger] loops[m])@),
        keys_distinct(in_loop),
        forall|id: usize| #[trigger] has_key(in_loop, id) <==> exists|j: int| 0 <= j < recipes.len() && recipes[j].unique_id == id,
        forall|p: int| 0 <= p < in_loop.len() ==> (#[trigger] in_loop[p]).1 == on_some_loop(recipes, found, in_loop[p].0),
    ensures
        exists|f: Seq<Seq<usize>>| loops_describe(recipes, f, in_loop, loops),
{
    assert(loops_describe(recipes, found, in_loop, loops));
}

proof fn lemma_same_elements_sound(recipes: Seq<Recipe>, a: Seq<Seq<usize>>, b: Seq<Seq<usize>>)
    requires
        cycles_sound(recipes, a),
        forall|c: Seq<usize>| #[trigger] b.contains(c) <==> a.contains(c),
    ensures
        cycles_sound(recipes, b),
{
    assert forall|m: int| 0 <= m < b.len() implies cycle_form(recipes, #[trigger] b[m]) by {
        assert(b.contains(b[m]));
        let q = choose|q: int| 0 <= q < a.len() && a[q] == b[m];
        assert(cycle_form(recipes, a[q]));
    }
}

fn build_adjacency(recipes: &Vec<Recipe>) -> (adjacency: Vec<Vec<usize>>)
    ensures
        adjacency_ok(recipes@, adjacency@),
{
    let n = recipes.len();
    let mut adjacency: Vec<Vec<usize>> = Vec::new();
    let mut from: usize = 0;
    while from < n
        invariant
            n == recipes.len(),
            from <= n,
            adjacency@.len() == from,
            forall|i: int, k: int| 0 <= i < adjacency@.len() && 0 <= k < adjacency@[i]@.len() ==>
                #[trigger] adjacency@[i]@[k] < recipes.len() && edge(recipes@, i as usize, adjacency@[i]@[k]),
            forall|i: int, j: usize| 0 <= i < adjacency@.len() && j < recipes.len() && edge(recipes@, i as usize, j) ==>
                #[trigger] adjacency@[i]@.contains(j),
        decreases n - from,
    {
        let mut list: Vec<usize> = Vec::new();
        let mut to: usize = 0;
        while to < n
            invariant
                n == recipes.len(),
                from < n,
                to <= n,
                forall|k: int| 0 <= k < list@.len() ==> #[trigger] list@[k] < recipes.len() && edge(recipes@, from, list@[k]),
                forall|j: usize| j < to && edge(recipes@, from, j) ==> #[trigger] list@.contains(j),
            decreases n - to,
        {
            let ghost before = list@;
            if recipe_outputs_feed_recipe_inputs(&recipes[from], &recipes[to]) {
                list.push(to);
                proof {
                    assert(list@[list@.len() - 1] == to);
                    assert forall|j: usize| j < to + 1 && edge(recipes@, from, j) implies #[trigger] list@.contains(j) by {
                        if j < to {
                            assert(before.contains(j));
                            let q = choose|q: int| 0 <= q < before.len() && before[q] == j;
                            assert(list@[q] == j);
                        }
                    }
                }
            }
            to = to + 1;
        }
        let ghost before_adj = adjacency@;
        adjacency.push(list);
        proof {
            assert forall|i: int, j: usize| 0 <= i < adjacency@.len() && j < recipes.len() && edge(recipes@, i as usize, j)
                implies #[trigger] adjacency@[i]@.contains(j) by {
                if i < from {
                    assert(adjacency@[i] == before_adj[i]);
                }
            }
            assert forall|i: int, k: int| 0 <= i < adjacency@.len() && 0 <= k < adjacency@[i]@.len() implies
                #[trigger] adjacency@[i]@[k] < recipes.len() && edge(recipes@, i as usize, adjacency@[i]@[k]) by {
                if i < from {
                    assert(adjacency@[i] == before_adj[i]);
                }
            }
        }
        from = from + 1;
    }
    adjacency
}

fn collect_all_cycles(recipes: &Vec<Recipe>, adjacency: &Vec<Vec<usize>>) -> (cycles: Vec<Vec<usize>>)
    requires
        adjacency_ok(recipes@, adjacency@),
    ensures
        cycles_sound(recipes@, index_views(cycles@)),
        no_duplicates_seq(index_views(cycles@)),
        forall|c: Seq<usize>| #[trigger] simple_cycle(recipes@, c) ==> index_views(cycles@).contains(least_rotation_of(c)),
{
    let n = recipes.len();
    let mut cycles: Vec<Vec<usize>> = Vec::new();
    let mut start: usize = 0;
    while start < n
        invariant
            n == recipes.len(),
            start <= n,
            adjacency_ok(recipes@, adjacency@),
            cycles_sound(recipes@, index_views(cycles@)),
            no_duplicates_seq(index_views(cycles@)),
            forall|c: Seq<usize>| #[trigger] simple_cycle(recipes@, c) && c[0] < start ==> index_views(cycles@).contains(least_rotation_of(c)),
        decreases n - start,
    {
        let mut on_path: Vec<bool> = Vec::new();
        let mut v: usize = 0;
        while v < n
            invariant
                v <= n,
                on_path@.len() == v,
                forall|q: int| 0 <= q < v ==> on_path@[q] == (q == start),
            decreases n - v,
        {
            on_path.push(v == start);
            v = v + 1;
        }
        let mut path: Vec<usize> = Vec::new();
        path.push(start);
        let ghost before = index_views(cycles@);
        proof {
            assert(simple_path(recipes@, path@));
            assert forall|q: int| 0 <= q < recipes.len() implies on_path@[q] == path@.contains(q as usize) by {
                if q == start {
                    assert(path@[0] == start);
                }
                if path@.contains(q as usize) {
                    let r = choose|r: int| 0 <= r < path@.len() && path@[r] == q as usize;
                    assert(r == 0);
                }
            }
        }
        depth_first_collect_cycles(recipes, start, start, adjacency, &mut on_path, &mut path, &mut cycles);
        proof {
            assert forall|c: Seq<usize>| #[trigger] simple_cycle(recipes@, c) && c[0] < start + 1 implies index_views(cycles@).contains(least_rotation_of(c)) by {
                lemma_prefix_contains(before, index_views(cycles@), least_rotation_of(c));
                if c[0] == start {
                    let ext = c.drop_first();
                    assert(seq![start] + ext =~= c);
                    assert(path@ == seq![start]);
                    assert(simple_cycle(recipes@, path@ + ext));
                }
            }
        }
        start = start + 1;
    }
    proof {
        assert forall|c: Seq<usize>| #[trigger] simple_cycle(recipes@, c) implies index_views(cycles@).contains(least_rotation_of(c)) by {
            assert(c[0] < n);
        }
    }
    cycles
}

fn build_in_loop_table(recipes: &Vec<Recipe>, sorted: &Vec<Vec<usize>>) -> (table: Vec<(usize, bool)>)
    requires
        cycles_sound(recipes@, index_views(sorted@)),
    ensures
        keys_distinct(table@),
        forall|id: usize| #[trigger] has_key(table@, id) <==> exists|j: int| 0 <= j < recipes.len() && recipes@[j].unique_id == id,
        forall|p: int| 0 <= p < table@.len() ==> (#[trigger] table@[p]).1 == on_some_loop(recipes@, index_views(sorted@), table@[p].0),
{
    let ghost found = index_views(sorted@);
    let n = recipes.len();
    let mut table: Vec<(usize, bool)> = Vec::new();
    let mut j: usize = 0;
    while j < n
        invariant
            n == recipes.len(),
            j <= n,
            keys_distinct(table@),
            forall|p: int| 0 <= p < table@.len() ==> !(#[trigger] table@[p]).1,
            forall|id: usize| #[trigger] has_key(table@, id) <==> seen_recipe_id(recipes@, j as int, id),
        decreases n - j,
    {
        let id = recipes[j].unique_id;
        let ghost before = table@;
        proof {
            lemma_key_index(before, id);
        }
        if find_key(&table, id).is_none() {
            table.push((id, false));
        }
        proof {
            assert forall|x: usize| #[trigger] has_key(table@, x) <==> seen_recipe_id(recipes@, j + 1, x) by {
                lemma_seen_recipe_step(recipes@, j as int, x);
                if has_key(table@, x) {
                    let p = choose|p: int| 0 <= p < table@.len() && #[trigger] table@[p].0 == x;
                    if p < before.len() {
                        assert(before[p].0 == x);
                    }
                }
                if has_key(before, x) {
                    let p = choose|p: int| 0 <= p < before.len() && #[trigger] before[p].0 == x;
                    assert(table@[p].0 == x);
                }
                if x == id && !has_key(before, x) {
                    assert(table@[before.len() as int].0 == x);
                }
            }
        }
        j = j + 1;
    }
    let mut m: usize = 0;
    while m < sorted.len()
        invariant
            n == recipes.len(),
            m <= sorted.len(),
            found == index_views(sorted@),
            cycles_sound(recipes@, found),
            keys_distinct(table@),
            forall|id: usize| #[trigger] has_key(table@, id) <==> seen_recipe_id(recipes@, n as int, id),
            forall|p: int| 0 <= p < table@.len() ==> (#[trigger] table@[p]).1 == on_some_loop(recipes@, found.take(m as int), table@[p].0),
        decreases sorted.len() - m,
    {
        let cycle = &sorted[m];
        proof {
            assert(found[m as int] == cycle@);
            assert(cycle_form(recipes@, found[m as int]));
            let c = choose|c: Seq<usize>| simple_cycle(recipes@, c) && least_rotation(c, found[m as int]);
            lemma_rotation_in_range(recipes@, c, cycle@);
        }
        let mut k: usize = 0;
        while k < cycle.len()
            invariant
                n == recipes.len(),
                k <= cycle@.len(),
                forall|q: int| 0 <= q < cycle@.len() ==> #[trigger] cycle@[q] < n,
                keys_distinct(table@),
                forall|id: usize| #[trigger] has_key(table@, id) <==> seen_recipe_id(recipes@, n as int, id),
                forall|p: int| 0 <= p < table@.len() ==> (#[trigger] table@[p]).1 == (on_some_loop(recipes@, found.take(m as int), table@[p].0)
                    || exists|q: int| 0 <= q < k && recipes@[cycle@[q] as int].unique_id == table@[p].0),
            decreases cycle.len() - k,
        {
            let index = cycle[k];
            let id = recipes[index].unique_id;
            let ghost before = table@;
            proof {
                assert(0 <= index < n && recipes@[index as int].unique_id == id);
                assert(seen_recipe_id(recipes@, n as int, id));
                assert(has_key(before, id));
                lemma_key_index(before, id);
            }
            let p = find_key(&table, id).unwrap();
            table.set(p, (id, true));
            proof {
                assert forall|x: usize| #[trigger] has_key(table@, x) <==> has_key(before, x) by {
                    if has_key(before, x) {
                        let r = choose|r: int| 0 <= r < before.len() && #[trigger] before[r].0 == x;
                        assert(table@[r].0 == x);
                    }
                    if has_key(table@, x) {
                        let r = choose|r: int| 0 <= r < table@.len() && #[trigger] table@[r].0 == x;
                        assert(before[r].0 == x);
                    }
                }
                assert forall|r: int| 0 <= r < table@.len() implies (#[trigger] table@[r]).1 == (on_some_loop(recipes@, found.take(m as int), table@[r].0)
                    || exists|q: int| 0 <= q < k + 1 && recipes@[cycle@[q] as int].unique_id == table@[r].0) by {
                    let x = table@[r].0;
                    if r == p {
                        assert(0 <= k < k + 1 && recipes@[cycle@[k as int] as int].unique_id == x);
                    } else {
                        assert(x != id);
                        if exists|q: int| 0 <= q < k + 1 && recipes@[cycle@[q] as int].unique_id == x {
                            let q = choose|q: int| 0 <= q < k + 1 && recipes@[cycle@[q] as int].unique_id == x;
                            assert(q < k);
                        }
                    }
                }
            }
            k = k + 1;
        }
        proof {
            assert forall|r: int| 0 <= r < table@.len() implies (#[trigger] table@[r]).1 == on_some_loop(recipes@, found.take(m + 1), table@[r].0) by {
                lemma_on_loop_step(recipes@, found, m as int, table@[r].0);
            }
        }
        m = m + 1;
    }
    proof {
        assert(found.take(found.len() as int) =~= found);
        assert forall|id: usize| #[trigger] has_key(table@, id) <==> exists|j: int| 0 <= j < recipes.len() && recipes@[j].unique_id == id by {
            if seen_recipe_id(recipes@, n as int, id) {
                let q = choose|q: int| 0 <= q < n && #[trigger] recipes@[q].unique_id == id;
                assert(0 <= q < recipes.len() && recipes@[q].unique_id == id);
            }
            if exists|j: int| 0 <= j < recipes.len() && recipes@[j].unique_id == id {
                let q = choose|q: int| 0 <= q < recipes.len() && recipes@[q].unique_id == id;
                assert(seen_recipe_id(recipes@, n as int, id));
            }
        }
    }
    table
}

/// Some recipe among the first `n` has identity `id`.
pub open spec fn seen_recipe_id(recipes: Seq<Recipe>, n: int, id: usize) -> bool {
    exists|q: int| 0 <= q < n && #[trigger] recipes[q].unique_id == id
}

proof fn lemma_seen_recipe_step(recipes: Seq<Recipe>, n: int, id: usize)
    requires
        0 <= n < recipes.len(),
    ensures
        seen_recipe_id(recipes, n + 1, id) == (seen_recipe_id(recipes, n, id) || recipes[n].unique_id == id),
{
    if seen_recipe_id(recipes, n + 1, id) && recipes[n].unique_id != id {
        let q = choose|q: int| 0 <= q < n + 1 && #[trigger] recipes[q].unique_id == id;
        assert(q < n);
    }
    if seen_recipe_id(recipes, n, id) {
        let q = choose|q: int| 0 <= q < n && #[trigger] recipes[q].unique_id == id;
        assert(0 <= q < n + 1);
    }
    if recipes[n].unique_id == id {
        assert(recipes[n].unique_id == id);
    }
}

fn build_loops(recipes: &Vec<Recipe>, sorted: &Vec<Vec<usize>>) -> (loops: Vec<Vec<Recipe>>)
    requires
        cycles_sound(recipes@, index_views(sorted@)),
    ensures
        loops@.len() == sorted@.len(),
        forall|m: int| 0 <= m < loops@.len() ==> lists_recipes_at(recipes@, sorted@[m]@, (#[trigger] loops@[m])@),
{
    let ghost found = index_views(sorted@);
    let mut loops: Vec<Vec<Recipe>> = Vec::new();
    let mut m: usize = 0;
    while m < sorted.len()
        invariant
            m <= sorted.len(),
            found == index_views(sorted@),
            cycles_sound(recipes@, found),
            loops@.len() == m,
            forall|q: int| 0 <= q < m ==> lists_recipes_at(recipes@, sorted@[q]@, (#[trigger] loops@[q])@),
        decreases sorted.len() - m,
    {
        let cycle = &sorted[m];
        proof {
            assert(found[m as int] == cycle@);
            assert(cycle_form(recipes@, found[m as int]));
            let c = choose|c: Seq<usize>| simple_cycle(recipes@, c) && least_rotation(c, found[m as int]);
            lemma_rotation_in_range(recipes@, c, cycle@);
        }
        let mut loop_recipes: Vec<Recipe> = Vec::new();
        let mut k: usize = 0;
        while k < cycle.len()
            invariant
                k <= cycle@.len(),
                forall|q: int| 0 <= q < cycle@.len() ==> #[trigger] cycle@[q] < recipes.len(),
                loop_recipes@.len() == k,
                forall|q: int| 0 <= q < k ==> (#[trigger] loop_recipes@[q])@ == recipes@[cycle@[q] as int]@,
            decreases cycle.len() - k,
        {
            loop_recipes.push(recipes[cycle[k]].clone());
            k = k + 1;
        }
        proof {
            assert(lists_recipes_at(recipes@, cycle@, loop_recipes@));
        }
        let ghost before = loops@;
        loops.push(loop_recipes);
        proof {
            assert forall|q: int| 0 <= q < m + 1 implies lists_recipes_at(recipes@, sorted@[q]@, (#[trigger] loops@[q])@) by {
                if q < m {
                    assert(loops@[q] == before[q]);
                }
            }
        }
        m = m + 1;
    }
    loops
}

proof fn lemma_on_loop_step(recipes: Seq<Recipe>, found: Seq<Seq<usize>>, m: int, id: usize)
    requires
        0 <= m < found.len(),
    ensures
        on_some_loop(recipes, found.take(m + 1), id) == (on_some_loop(recipes, found.take(m), id) || exists|q: int|
            0 <= q < found[m].len() && recipes[found[m][q] as int].unique_id == id),
{
    let a = found.take(m);
    let b = found.take(m + 1);
    if on_some_loop(recipes, b, id) {
        let (x, k) = choose|x: int, k: int| 0 <= x < b.len() && 0 <= k < b[x].len() && #[trigger] recipes[b[x][k] as int].unique_id == id;
        if x < m {
            assert(a[x] == b[x]);
        } else {
            assert(0 <= k < found[m].len() && recipes[found[m][k] as int].unique_id == id);
        }
    }
    if on_some_loop(recipes, a, id) {
        let (x, k) = choose|x: int, k: int| 0 <= x < a.len() && 0 <= k < a[x].len() && #[trigger] recipes[a[x][k] as int].unique_id == id;
        assert(a[x] == b[x]);
    }
    if exists|q: int| 0 <= q < found[m].len() && recipes[found[m][q] as int].unique_id == id {
        let q = choose|q: int| 0 <= q < found[m].len() && recipes[found[m][q] as int].unique_id == id;
        assert(b[m] == found[m]);
        assert(recipes[b[m][q] as int].unique_id == id);
    }
}

/// Every element of a rotation of a simple cycle is a recipe position.
proof fn lemma_rotation_in_range(recipes: Seq<Recipe>, c: Seq<usize>, m: Seq<usize>)
    requires
        simple_cycle(recipes, c),
        least_rotation(c, m),
    ensures
        forall|q: int| 0 <= q < m.len() ==> #[trigger] m[q] < recipes.len(),
{
    let s = choose|s: int| 0 <= s < c.len() && m == rotate(c, s);
    assert forall|q: int| 0 <= q < m.len() implies #[trigger] m[q] < recipes.len() by {
        if q < c.len() - s {
            assert(m[q] == c[q + s]);
        } else {
            assert(m[q] == c[q - (c.len() - s)]);
        }
    }
}

/// Sorts the cycles lexicographically.
fn sort_cycles(cycles: Vec<Vec<usize>>) -> (sorted: Vec<Vec<usize>>)
    requires
        no_duplicates_seq(index_views(cycles@)),
    ensures
        forall|c: Seq<usize>| #[trigger] index_views(sorted@).contains(c) <==> index_views(cycles@).contains(c),
        forall|a: int, b: int| 0 <= a < b < sorted@.len() ==> lex_lt(usize_ints(sorted@[a]@), usize_ints(sorted@[b]@)),
{
    let mut source = cycles;
    let ghost all = index_views(source@);
    let mut sorted: Vec<Vec<usize>> = Vec::new();
    while source.len() > 0
        invariant
            no_duplicates_seq(index_views(source@)),
            forall|c: Seq<usize>| #[trigger] all.contains(c) <==> (index_views(source@).contains(c) || index_views(sorted@).contains(c)),
            forall|c: Seq<usize>| index_views(source@).contains(c) ==> !(#[trigger] index_views(sorted@).contains(c)),
            forall|a: int, b: int| 0 <= a < b < sorted@.len() ==> lex_lt(usize_ints(sorted@[a]@), usize_ints(sorted@[b]@)),
        decreases source.len(),
    {
        let ghost src_before = index_views(source@);
        let ghost sorted_before = sorted@;
        let x = source.pop().unwrap();
        proof {
            assert(index_views(source@) =~= src_before.drop_last());
            assert(src_before.last() == x@);
        }
        let mut j: usize = 0;
        while j < sorted.len() && !usize_seq_less(&x, &sorted[j])
            invariant
                j <= sorted.len(),
                sorted@ == sorted_before,
                forall|k: int| 0 <= k < j ==> !lex_lt(usize_ints(x@), usize_ints(sorted@[k]@)),
            decreases sorted.len() - j,
        {
            j = j + 1;
        }
        proof {
            assert(!index_views(sorted_before).contains(x@)) by {
                assert(src_before.contains(x@)) by {
                    assert(src_before[src_before.len() - 1] == x@);
                }
            }
        }
        sorted.insert(j, x);
        proof {
            assert(sorted@[j as int]@ == x@);
            assert forall|a: int, b: int| 0 <= a < b < sorted@.len() implies lex_lt(usize_ints(sorted@[a]@), usize_ints(sorted@[b]@)) by {
                if a < j && b == j {
                    let y = sorted_before[a]@;
                    assert(sorted@[a] == sorted_before[a]);
                    lemma_lex_total(usize_ints(x@), usize_ints(y));
                    if usize_ints(x@) == usize_ints(y) {
                        lemma_ints_injective(x@, y);
                        assert(index_views(sorted_before)[a] == y);
                    }
                } else if a == j && b > j {
                    assert(sorted@[b] == sorted_before[b - 1]);
                    assert(lex_lt(usize_ints(x@), usize_ints(sorted_before[j as int]@)));
                    if b - 1 > j {
                        lemma_lex_transitive(usize_ints(x@), usize_ints(sorted_before[j as int]@), usize_ints(sorted_before[b - 1]@));
                    }
                } else if b < j {
                    assert(sorted@[a] == sorted_before[a] && sorted@[b] == sorted_before[b]);
                } else if a < j {
                    assert(sorted@[a] == sorted_before[a] && sorted@[b] == sorted_before[b - 1]);
                } else {
                    assert(sorted@[a] == sorted_before[a - 1] && sorted@[b] == sorted_before[b - 1]);
                }
            }
            assert(index_views(sorted@) =~= index_views(sorted_before).insert(j as int, x@));
            assert forall|c: Seq<usize>| #[trigger] index_views(sorted@).contains(c) <==> (index_views(sorted_before).contains(c) || c == x@) by {
                let v = index_views(sorted_before);
                if index_views(sorted@).contains(c) {
                    let q = choose|q: int| 0 <= q < index_views(sorted@).len() && index_views(sorted@)[q] == c;
                    if q < j {
                        assert(v[q] == c);
                    } else if q > j {
                        assert(v[q - 1] == c);
                    }
                }
                if v.contains(c) {
                    let q = choose|q: int| 0 <= q < v.len() && v[q] == c;
                    if q < j {
                        assert(index_views(sorted@)[q] == c);
                    } else {
                        assert(index_views(sorted@)[q + 1] == c);
                    }
                }
                if c == x@ {
                    assert(index_views(sorted@)[j as int] == c);
                }
            }
            assert forall|c: Seq<usize>| #[trigger] src_before.contains(c) <==> (index_views(source@).contains(c) || c == x@) by {
                let v = index_views(source@);
                if src_before.contains(c) {
                    let q = choose|q: int| 0 <= q < src_before.len() && src_before[q] == c;
                    if q < src_before.len() - 1 {
                        assert(v[q] == c);
                    }
                }
                if v.contains(c) {
                    let q = choose|q: int| 0 <= q < v.len() && v[q] == c;
                    assert(src_before[q] == c);
                }
                if c == x@ {
                    assert(src_before[src_before.len() - 1] == c);
                }
            }
            assert forall|c: Seq<usize>| index_views(source@).contains(c) implies !(#[trigger] index_views(sorted@).contains(c)) by {
                if c == x@ {
                    let q = choose|q: int| 0 <= q < index_views(source@).len() && index_views(source@)[q] == c;
                    assert(src_before[q] == c);
                    assert(src_before[src_before.len() - 1] == c);
                }
            }
        }
    }
    sorted
}

proof fn lemma_ints_injective(a: Seq<usize>, b: Seq<usize>)
    requires
        usize_ints(a) == usize_ints(b),
    ensures
        a == b,
{
    assert(a.len() == usize_ints(a).len());
    assert(b.len() == usize_ints(b).len());
    assert forall|k: int| 0 <= k < a.len() implies a[k] == b[k] by {
        assert(usize_ints(a)[k] == usize_ints(b)[k]);
        assert(usize_ints(a)[k] == a[k] as int);
        assert(usize_ints(b)[k] == b[k] as int);
    }
    assert(a =~= b);
}

} // verus!
