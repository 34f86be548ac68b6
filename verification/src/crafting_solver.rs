//! The crafting solver: integer programs over recipe usage counts, the search
//! for an executable solution that breaks recipe loops, the largest craftable
//! amount, and the base items missing from the start.
use vstd::prelude::*;
use crate::crafting_domain::{CraftingSolution, ItemId, ItemSet, Recipe, RecipeView, MAX_RECIPE_VALUE};
use crate::keyed_entries::{
    put, count_of, find_key, has_key, key_index, keys_distinct, lemma_key_index, lemma_put, lookup_count, lookup_entry,
    lookup_value, put_entry, value_of,
};
use crate::linear_program::{ilp_solution, rows_view, LinearTerms};
use crate::integer_programs::{
    capped_bounds, capped_bounds_for, negated_flow_terms, negated_flow_terms_for, free_bounds, free_bounds_for, item_rows,
    item_rows_for, lemma_flow_within, lemma_item_rows_within, ranked_solution, ranked_solve, rows_within, solve_program,
    var_positions, variable_positions,
};
use crate::recipe_analysis::{
    collect_non_producible_items, collect_relevant_item_ids, contains_cycle, detect_recipe_cycles, greedy_selection,
    index_views, is_priority_order, lists_recipes_at, loops_describe, mentioned_by, no_duplicates,
    prioritize_and_prune_relevant_recipes_and_items, prioritized, producible, push_unique,
    select_top_priority_recipes_per_output_item,
};
use crate::execution_planner::{build_executable_plan_from_recipe_usage, identity_fixes_content, usage_count};
use crate::plan_semantics::{batches_affordable, merge_steps, plan_runs, plan_views, steps_total, stock};
use crate::route_keys::{item_route, lemma_distinct_within, lemma_universe, route_step, universe};

verus! {

/// How `item` changes when recipe `r` runs once.
pub open spec fn net_change(r: RecipeView, item: ItemId) -> int {
    count_of(r.output, item) - count_of(r.input, item)
}

/// How `item` changes when every recipe runs as often as the usage of its
/// identity says.
pub open spec fn flow(recipes: Seq<Recipe>, usage: Seq<(usize, i64)>, item: ItemId) -> int
    decreases recipes.len(),
{
    if recipes.len() == 0 {
        0
    } else {
        flow(recipes.drop_last(), usage, item) + net_change(recipes.last()@, item) * value_of(
            usage,
            recipes.last().unique_id,
        )
    }
}

/// The inventory of `item` after that.
pub open spec fn final_count(
    start: Seq<(ItemId, usize)>,
    recipes: Seq<Recipe>,
    usage: Seq<(usize, i64)>,
    item: ItemId,
) -> int {
    count_of(start, item) + flow(recipes, usage, item)
}

/// Some recipe has identity `id`.
pub open spec fn has_recipe_id(recipes: Seq<Recipe>, id: usize) -> bool {
    exists|j: int| 0 <= j < recipes.len() && #[trigger] recipes[j].unique_id == id
}

/// Strictly increasing.
pub open spec fn increasing(s: Seq<usize>) -> bool {
    forall|i: int, l: int| 0 <= i < l < s.len() ==> s[i] < s[l]
}

/// A solution for `recipes`: one usage per identity, none negative or above
/// `i32::MAX`, zero for the disabled identities; the relevant items are those
/// the recipes need or produce and the target items, in increasing order; each
/// ends at or above its target, and the
/// final inventory lists exactly them with their final counts.
pub open spec fn solution_fits(
    recipes: Seq<Recipe>,
    start: Seq<(ItemId, usize)>,
    target: Seq<(ItemId, usize)>,
    disabled: Seq<usize>,
    sol: CraftingSolution,
) -> bool {
    let usage = sol.recipe_values@;
    &&& keys_distinct(usage)
    &&& forall|id: usize| #[trigger] has_key(usage, id) <==> has_recipe_id(recipes, id)
    &&& forall|k: int| 0 <= k < usage.len() ==> 0 <= (#[trigger] usage[k]).1 <= i32::MAX
    &&& forall|id: usize| #[trigger] disabled.contains(id) ==> value_of(usage, id) == 0
    &&& increasing(sol.relevant_item_ids@)
    &&& forall|x: ItemId| #[trigger] sol.relevant_item_ids@.contains(x) <==> in_play(recipes, target, x)
    &&& keys_distinct(sol.final_inventory_values@)
    &&& forall|x: ItemId| #[trigger] has_key(sol.final_inventory_values@, x) <==> in_play(recipes, target, x)
    &&& forall|x: ItemId| #[trigger] in_play(recipes, target, x) ==> final_count(start, recipes, usage, x) >= count_of(
        target,
        x,
    ) && sol.final_inventory_values.spec_count(x) == final_count(start, recipes, usage, x)
}

/// An item the recipes need or produce, or a target item.
pub open spec fn in_play(recipes: Seq<Recipe>, target: Seq<(ItemId, usize)>, x: ItemId) -> bool {
    mentioned_by(recipes, x) || has_key(target, x)
}

/// How recipe variables are bounded.
pub enum RecipeVariableMode {
    /// At least 0.
    Unbounded,
    /// At least 0, and exactly 0 for the listed identities.
    DisabledAtZero(Vec<usize>),
    /// Between 0 and the given bound.
    Capped(i32),
}

fn vec_has(v: &Vec<usize>, x: usize) -> (b: bool)
    ensures
        b == v@.contains(x),
{
    let mut i: usize = 0;
    while i < v.len()
        invariant
            i <= v.len(),
            forall|k: int| 0 <= k < i ==> v@[k] != x,
        decreases v.len() - i,
    {
        if v[i] == x {
            return true;
        }
        i = i + 1;
    }
    false
}

/// The bounds of the recipes' variables as the mode says, and the variable
/// of each recipe (recipes of one identity share the last one's variable).
fn build_recipe_variables(recipes: &Vec<Recipe>, mode: &RecipeVariableMode) -> (result: (
    Vec<(i32, i32)>,
    Vec<usize>,
))
    ensures
        result.1@ == var_positions(recipes@),
        result.0@.len() == recipes@.len(),
        mode matches RecipeVariableMode::Unbounded ==> result.0@ == free_bounds(recipes@, Seq::empty()),
        mode matches RecipeVariableMode::DisabledAtZero(d) ==> result.0@ == free_bounds(recipes@, d@),
        mode matches RecipeVariableMode::Capped(c) ==> result.0@ == capped_bounds(recipes@.len(), *c),
{
    let positions = variable_positions(recipes);
    let bounds = match mode {
        RecipeVariableMode::Unbounded => free_bounds_for(recipes, &Vec::new()),
        RecipeVariableMode::DisabledAtZero(d) => free_bounds_for(recipes, d),
        RecipeVariableMode::Capped(c) => capped_bounds_for(recipes.len(), *c),
    };
    (bounds, positions)
}

/// The rows holding every relevant item outside `unconstrained_item_ids` at
/// or above its target count.
fn build_item_flow_expressions_and_constraints(
    recipes: &Vec<Recipe>,
    positions: &Vec<usize>,
    relevant_item_ids: &Vec<ItemId>,
    starting_items: &ItemSet,
    target: &ItemSet,
    unconstrained_item_ids: &Vec<ItemId>,
) -> (rows: Vec<(LinearTerms, i32)>)
    requires
        positions@ == var_positions(recipes@),
    ensures
        rows_view(rows@) == item_rows(recipes@, starting_items@, target@, relevant_item_ids@, unconstrained_item_ids@),
        rows_within(rows_view(rows@), recipes@.len() as int),
{
    proof {
        lemma_item_rows_within(recipes@, starting_items@, target@, relevant_item_ids@, unconstrained_item_ids@);
    }
    item_rows_for(recipes, positions, starting_items, target, relevant_item_ids, unconstrained_item_ids)
}

/// The usage of each identity read from the values of the variables: each
/// recipe in turn stores the value of its variable under its identity.
pub open spec fn usage_from(recipes: Seq<Recipe>, positions: Seq<usize>, sol: Seq<i32>, n: int) -> Seq<(usize, i64)>
    decreases n,
{
    if n <= 0 {
        Seq::empty()
    } else {
        put(usage_from(recipes, positions, sol, n - 1), recipes[n - 1].unique_id, sol[positions[n - 1] as int] as i64)
    }
}

/// The usage of the solution of the program fixed in rank order.
pub open spec fn ranked_usage(
    recipes: Seq<Recipe>,
    bounds: Seq<(i32, i32)>,
    rows: Seq<((Seq<(usize, i32)>, i32), i32)>,
) -> Option<Seq<(usize, i64)>> {
    match ranked_solution(recipes, bounds, rows) {
        None => None,
        Some(sol) => Some(usage_from(recipes, var_positions(recipes), sol, recipes.len() as int)),
    }
}

/// The usage found with the listed identities held at zero: every relevant
/// item held to its target, usages fixed in rank order at their least values.
pub open spec fn disabled_usage(
    pruned: Seq<Recipe>,
    relevant: Seq<ItemId>,
    start: Seq<(ItemId, usize)>,
    target: Seq<(ItemId, usize)>,
    disabled: Seq<usize>,
) -> Option<Seq<(usize, i64)>> {
    ranked_usage(pruned, free_bounds(pruned, disabled), item_rows(pruned, start, target, relevant, Seq::empty()))
}

/// The usage found in the relaxed program: only the items outside
/// `no_recipe` held to their targets, usages fixed in rank order.
pub open spec fn relaxed_usage(
    selected: Seq<Recipe>,
    relevant: Seq<ItemId>,
    start: Seq<(ItemId, usize)>,
    target: Seq<(ItemId, usize)>,
    no_recipe: Seq<ItemId>,
) -> Option<Seq<(usize, i64)>> {
    ranked_usage(selected, free_bounds(selected, Seq::empty()), item_rows(selected, start, target, relevant, no_recipe))
}

/// The usage maximising the final count of `item`, every usage between 0 and
/// `MAX_RECIPE_VALUE` and every relevant item held to its target.
pub open spec fn max_usage(
    pruned: Seq<Recipe>,
    relevant: Seq<ItemId>,
    start: Seq<(ItemId, usize)>,
    target: Seq<(ItemId, usize)>,
    item: ItemId,
) -> Option<Seq<(usize, i64)>> {
    match ilp_solution(
        capped_bounds(pruned.len(), MAX_RECIPE_VALUE),
        item_rows(pruned, start, target, relevant, Seq::empty()),
        negated_flow_terms(pruned, item),
    ) {
        None => None,
        Some(sol) => Some(usage_from(pruned, var_positions(pruned), sol, pruned.len() as int)),
    }
}

/// Every term and every partial sum of the final count of `item` lies in the
/// `i128` range.
pub open spec fn count_fits_i128(
    start: Seq<(ItemId, usize)>,
    recipes: Seq<Recipe>,
    usage: Seq<(usize, i64)>,
    item: ItemId,
) -> bool {
    forall|j: int|
        0 <= j < recipes.len() ==> i128::MIN <= net_change(#[trigger] recipes[j]@, item) * value_of(
            usage,
            recipes[j].unique_id,
        ) <= i128::MAX && i128::MIN <= count_of(start, item) + flow(recipes.take(j + 1), usage, item) <= i128::MAX
}

/// The final inventory of `item`, computed exactly; `None` when a term or a
/// partial sum leaves the `i128` range.
fn final_count_of(recipes: &Vec<Recipe>, usage: &Vec<(usize, i64)>, start: &ItemSet, item: ItemId) -> (r: Option<i128>)
    ensures
        r is Some <==> count_fits_i128(start@, recipes@, usage@, item),
        r matches Some(v) ==> v == final_count(start@, recipes@, usage@, item),
{
    let mut total: i128 = start.count(item) as i128;
    let mut j: usize = 0;
    while j < recipes.len()
        invariant
            j <= recipes.len(),
            total == count_of(start@, item) + flow(recipes@.take(j as int), usage@, item),
            forall|q: int|
                0 <= q < j ==> i128::MIN <= net_change(#[trigger] recipes@[q]@, item) * value_of(
                    usage@,
                    recipes@[q].unique_id,
                ) <= i128::MAX && i128::MIN <= count_of(start@, item) + flow(recipes@.take(q + 1), usage@, item)
                    <= i128::MAX,
        decreases recipes.len() - j,
    {
        let recipe = &recipes[j];
        let change: i128 = recipe.output.count(item) as i128 - recipe.input.count(item) as i128;
        let times = lookup_value(usage, recipe.unique_id) as i128;
        assert(recipes@.take(j + 1).drop_last() =~= recipes@.take(j as int));
        assert(recipes@.take(j + 1).last() == recipes@[j as int]);
        assert(change == net_change(recipes@[j as int]@, item));
        assert(times == value_of(usage@, recipes@[j as int].unique_id));
        let term = match change.checked_mul(times) {
            Some(t) => t,
            None => {
                proof {
                    assert(!(i128::MIN <= net_change(recipes@[j as int]@, item) * value_of(
                        usage@,
                        recipes@[j as int].unique_id,
                    ) <= i128::MAX));
                }
                return None;
            },
        };
        total = match total.checked_add(term) {
            Some(t) => t,
            None => {
                proof {
                    assert(!(i128::MIN <= count_of(start@, item) + flow(recipes@.take(j + 1), usage@, item)
                        <= i128::MAX));
                }
                return None;
            },
        };
        j = j + 1;
    }
    assert(recipes@.take(recipes@.len() as int) =~= recipes@);
    Some(total)
}

/// Sorts distinct item ids into increasing order.
fn sort_item_ids(ids: &Vec<ItemId>) -> (sorted: Vec<ItemId>)
    requires
        no_duplicates(ids@),
    ensures
        increasing(sorted@),
        forall|x: ItemId| #[trigger] sorted@.contains(x) <==> ids@.contains(x),
{
    let mut sorted: Vec<ItemId> = Vec::new();
    let mut i: usize = 0;
    while i < ids.len()
        invariant
            i <= ids.len(),
            no_duplicates(ids@),
            increasing(sorted@),
            forall|x: ItemId| #[trigger] sorted@.contains(x) <==> ids@.take(i as int).contains(x),
        decreases ids.len() - i,
    {
        let x = ids[i];
        let mut p: usize = 0;
        while p < sorted.len() && sorted[p] < x
            invariant
                p <= sorted@.len(),
                forall|a: int| 0 <= a < p ==> sorted@[a] < x,
            decreases sorted.len() - p,
        {
            p = p + 1;
        }
        let ghost before = sorted@;
        proof {
            assert(!before.contains(x)) by {
                if before.contains(x) {
                    let k = choose|k: int| 0 <= k < before.len() && before[k] == x;
                    assert(ids@.take(i as int).contains(x));
                    let q = choose|q: int| 0 <= q < i && #[trigger] ids@.take(i as int)[q] == x;
                    assert(ids@[q] == ids@[i as int]);
                }
            }
        }
        sorted.insert(p, x);
        proof {
            assert forall|a: int, l: int| 0 <= a < l < sorted@.len() implies sorted@[a] < sorted@[l] by {
                if l < p {
                } else if a < p && l == p {
                } else if a < p {
                    assert(sorted@[l] == before[l - 1]);
                } else if a == p {
                    assert(sorted@[l] == before[l - 1]);
                    assert(before[p as int] != x);
                    assert(before[p as int] >= x);
                    if l - 1 > p {
                        assert(before[p as int] < before[l - 1]);
                    }
                } else {
                    assert(sorted@[a] == before[a - 1] && sorted@[l] == before[l - 1]);
                }
            }
            assert forall|y: ItemId| #[trigger] sorted@.contains(y) <==> ids@.take(i + 1).contains(y) by {
                if sorted@.contains(y) {
                    let k = choose|k: int| 0 <= k < sorted@.len() && sorted@[k] == y;
                    if k == p {
                        assert(ids@.take(i + 1)[i as int] == y);
                    } else {
                        let kk = if k < p { k } else { k - 1 };
                        assert(before[kk] == y);
                        assert(before.contains(y));
                        let q = choose|q: int| 0 <= q < i && #[trigger] ids@.take(i as int)[q] == y;
                        assert(ids@.take(i + 1)[q] == y);
                    }
                }
                if ids@.take(i + 1).contains(y) {
                    let q = choose|q: int| 0 <= q < i + 1 && #[trigger] ids@.take(i + 1)[q] == y;
                    if q == i {
                        assert(sorted@[p as int] == y);
                    } else {
                        assert(ids@.take(i as int)[q] == y);
                        assert(before.contains(y));
                        let k = choose|k: int| 0 <= k < before.len() && before[k] == y;
                        if k < p {
                            assert(sorted@[k] == y);
                        } else {
                            assert(sorted@[k + 1] == y);
                        }
                    }
                }
            }
        }
        i = i + 1;
    }
    assert(ids@.take(ids@.len() as int) =~= ids@);
    sorted
}

/// A solved usage checks out: no count is negative, the disabled identities
/// are at zero, and every relevant item's final count is computed within
/// `i128`, reaches its target and fits in a `usize`.
pub open spec fn usage_checks(
    recipes: Seq<Recipe>,
    usage: Seq<(usize, i64)>,
    start: Seq<(ItemId, usize)>,
    target: Seq<(ItemId, usize)>,
    relevant: Seq<ItemId>,
    disabled: Seq<usize>,
) -> bool {
    &&& forall|k: int| 0 <= k < usage.len() ==> (#[trigger] usage[k]).1 >= 0
    &&& forall|id: usize| #[trigger] disabled.contains(id) ==> value_of(usage, id) == 0
    &&& forall|x: ItemId| #[trigger] relevant.contains(x) ==> count_fits_i128(start, recipes, usage, x) && count_of(target, x)
        <= final_count(start, recipes, usage, x) <= usize::MAX
}

/// Checks a solved usage: none negative, zero for disabled identities, and
/// every relevant item at or above its target. Returns the final inventory of
/// the relevant items when all of that holds.
fn check_solution(
    recipes: &Vec<Recipe>,
    usage: &Vec<(usize, i64)>,
    starting_items: &ItemSet,
    target: &ItemSet,
    relevant_item_ids: &Vec<ItemId>,
    disabled_recipe_ids: &Vec<usize>,
) -> (finals: Option<Vec<(ItemId, usize)>>)
    requires
        no_duplicates(relevant_item_ids@),
    ensures
        finals is Some <==> usage_checks(
            recipes@,
            usage@,
            starting_items@,
            target@,
            relevant_item_ids@,
            disabled_recipe_ids@,
        ),
        finals matches Some(f) ==> {
            &&& f@.len() == relevant_item_ids@.len()
            &&& forall|q: int| 0 <= q < f@.len() ==> (#[trigger] f@[q]).0 == relevant_item_ids@[q] && f@[q].1 == final_count(
                starting_items@,
                recipes@,
                usage@,
                relevant_item_ids@[q],
            )
            &&& forall|k: int| 0 <= k < usage@.len() ==> (#[trigger] usage@[k]).1 >= 0
            &&& forall|id: usize| #[trigger] disabled_recipe_ids@.contains(id) ==> value_of(usage@, id) == 0
            &&& keys_distinct(f@)
            &&& forall|x: ItemId| #[trigger] has_key(f@, x) <==> relevant_item_ids@.contains(x)
            &&& forall|x: ItemId| #[trigger] relevant_item_ids@.contains(x) ==> final_count(starting_items@, recipes@, usage@, x)
                >= count_of(target@, x) && count_of(f@, x) == final_count(starting_items@, recipes@, usage@, x)
        },
{
    let mut k: usize = 0;
    while k < usage.len()
        invariant
            k <= usage.len(),
            forall|q: int| 0 <= q < k ==> (#[trigger] usage@[q]).1 >= 0,
        decreases usage.len() - k,
    {
        if usage[k].1 < 0 {
            proof {
                assert(!usage_checks(recipes@, usage@, starting_items@, target@, relevant_item_ids@, disabled_recipe_ids@)) by {
                    assert(usage@[k as int].1 < 0);
                }
            }
            return None;
        }
        k = k + 1;
    }
    let mut d: usize = 0;
    while d < disabled_recipe_ids.len()
        invariant
            d <= disabled_recipe_ids.len(),
            forall|q: int| 0 <= q < d ==> value_of(usage@, #[trigger] disabled_recipe_ids@[q]) == 0,
        decreases disabled_recipe_ids.len() - d,
    {
        if lookup_value(usage, disabled_recipe_ids[d]) != 0 {
            proof {
                assert(!usage_checks(recipes@, usage@, starting_items@, target@, relevant_item_ids@, disabled_recipe_ids@)) by {
                    assert(disabled_recipe_ids@.contains(disabled_recipe_ids@[d as int]));
                }
            }
            return None;
        }
        d = d + 1;
    }
    let mut finals: Vec<(ItemId, usize)> = Vec::new();
    let mut i: usize = 0;
    while i < relevant_item_ids.len()
        invariant
            i <= relevant_item_ids.len(),
            no_duplicates(relevant_item_ids@),
            finals@.len() == i,
            forall|q: int| 0 <= q < i ==> (#[trigger] finals@[q]).0 == relevant_item_ids@[q]
                && count_fits_i128(starting_items@, recipes@, usage@, relevant_item_ids@[q])
                && final_count(starting_items@, recipes@, usage@, relevant_item_ids@[q]) >= count_of(target@, relevant_item_ids@[q])
                && finals@[q].1 == final_count(starting_items@, recipes@, usage@, relevant_item_ids@[q]),
        decreases relevant_item_ids.len() - i,
    {
        let item = relevant_item_ids[i];
        let value = match final_count_of(recipes, usage, starting_items, item) {
            Some(v) => v,
            None => {
                proof {
                    assert(!usage_checks(recipes@, usage@, starting_items@, target@, relevant_item_ids@, disabled_recipe_ids@)) by {
                        assert(relevant_item_ids@.contains(item));
                    }
                }
                return None;
            },
        };
        if value < target.count(item) as i128 || value > usize::MAX as i128 {
            proof {
                assert(!usage_checks(recipes@, usage@, starting_items@, target@, relevant_item_ids@, disabled_recipe_ids@)) by {
                    assert(relevant_item_ids@.contains(item));
                }
            }
            return None;
        }
        finals.push((item, value as usize));
        i = i + 1;
    }
    proof {
        assert forall|x: ItemId| #[trigger] relevant_item_ids@.contains(x) implies count_fits_i128(
            starting_items@,
            recipes@,
            usage@,
            x,
        ) && count_of(target@, x) <= final_count(starting_items@, recipes@, usage@, x) <= usize::MAX by {
            let q = choose|q: int| 0 <= q < relevant_item_ids@.len() && relevant_item_ids@[q] == x;
            assert(finals@[q].0 == x);
        }
        assert forall|id: usize| #[trigger] disabled_recipe_ids@.contains(id) implies value_of(usage@, id) == 0 by {
            let q = choose|q: int| 0 <= q < disabled_recipe_ids@.len() && disabled_recipe_ids@[q] == id;
            assert(value_of(usage@, disabled_recipe_ids@[q]) == 0);
        }
    }
    proof {
        assert(keys_distinct(finals@));
        assert forall|x: ItemId| #[trigger] relevant_item_ids@.contains(x) implies final_count(starting_items@, recipes@, usage@, x)
            >= count_of(target@, x) && count_of(finals@, x) == final_count(starting_items@, recipes@, usage@, x)
            && has_key(finals@, x) by {
            let q = choose|q: int| 0 <= q < relevant_item_ids@.len() && relevant_item_ids@[q] == x;
            assert(finals@[q].0 == x);
            lemma_key_index(finals@, x);
            assert(key_index(finals@, x) == q);
        }
        assert forall|x: ItemId| #[trigger] has_key(finals@, x) implies relevant_item_ids@.contains(x) by {
            let q = choose|q: int| 0 <= q < finals@.len() && #[trigger] finals@[q].0 == x;
            assert(relevant_item_ids@[q] == x);
        }
    }
    Some(finals)
}

/// Reads the solved usage of every recipe identity: each recipe in turn
/// stores the value of its variable under its identity.
fn read_recipe_values(recipes: &Vec<Recipe>, positions: &Vec<usize>, solution: &Vec<i32>) -> (values: Vec<(usize, i64)>)
    requires
        positions@ == var_positions(recipes@),
        solution@.len() == recipes@.len(),
    ensures
        values@ == usage_from(recipes@, positions@, solution@, recipes@.len() as int),
        keys_distinct(values@),
        forall|id: usize| #[trigger] has_key(values@, id) <==> has_recipe_id(recipes@, id),
        forall|k: int| 0 <= k < values@.len() ==> (#[trigger] values@[k]).1 <= i32::MAX,
{
    let mut values: Vec<(usize, i64)> = Vec::new();
    let mut j: usize = 0;
    while j < recipes.len()
        invariant
            j <= recipes.len(),
            positions@ == var_positions(recipes@),
            solution@.len() == recipes@.len(),
            values@ == usage_from(recipes@, positions@, solution@, j as int),
            keys_distinct(values@),
            forall|id: usize| #[trigger] has_key(values@, id) <==> has_recipe_id(recipes@.take(j as int), id),
            forall|k: int| 0 <= k < values@.len() ==> (#[trigger] values@[k]).1 <= i32::MAX,
        decreases recipes.len() - j,
    {
        let id = recipes[j].unique_id;
        proof {
            crate::integer_programs::lemma_positions_within(recipes@);
        }
        let ghost before = values@;
        let value = solution[positions[j]] as i64;
        put_entry(&mut values, id, value);
        proof {
            lemma_put(before, id, value, 0);
            lemma_key_index(before, id);
            assert forall|k: int| 0 <= k < values@.len() implies (#[trigger] values@[k]).1 <= i32::MAX by {
                if k < before.len() && !(has_key(before, id) && k == key_index(before, id)) {
                    assert(values@[k] == before[k]);
                }
            }
            assert forall|q: usize| #[trigger] has_key(values@, q) <==> has_recipe_id(recipes@.take(j + 1), q) by {
                lemma_put(before, id, value, q);
                let t = recipes@.take(j + 1);
                if has_recipe_id(recipes@.take(j as int), q) {
                    let w = choose|w: int| 0 <= w < j && #[trigger] recipes@.take(j as int)[w].unique_id == q;
                    assert(t[w].unique_id == q);
                }
                if has_recipe_id(t, q) && q != id {
                    let w = choose|w: int| 0 <= w < j + 1 && #[trigger] t[w].unique_id == q;
                    assert(recipes@.take(j as int)[w].unique_id == q);
                }
                if q == id {
                    assert(t[j as int].unique_id == q);
                }
            }
        }
        j = j + 1;
    }
    assert(recipes@.take(recipes@.len() as int) =~= recipes@);
    values
}

/// The usage of the program's solution with usages fixed in rank order.
fn ranked_usage_of(
    recipes: &Vec<Recipe>,
    positions: &Vec<usize>,
    bounds: &Vec<(i32, i32)>,
    rows: &Vec<(LinearTerms, i32)>,
) -> (usage: Option<Vec<(usize, i64)>>)
    requires
        positions@ == var_positions(recipes@),
        bounds@.len() == recipes@.len(),
        rows_within(rows_view(rows@), bounds@.len() as int),
    ensures
        match usage {
            Some(u) => ranked_usage(recipes@, bounds@, rows_view(rows@)) == Some(u@) && keys_distinct(u@) && (forall|id: usize|
                #[trigger] has_key(u@, id) <==> has_recipe_id(recipes@, id)) && forall|k: int|
                0 <= k < u@.len() ==> (#[trigger] u@[k]).1 <= i32::MAX,
            None => ranked_usage(recipes@, bounds@, rows_view(rows@)) is None,
        },
{
    match ranked_solve(recipes, positions, bounds, rows) {
        Some(sol) => Some(read_recipe_values(recipes, positions, &sol)),
        None => None,
    }
}

/// The solution a solved usage gives, when it checks out: the usage itself,
/// the final count of each relevant item in the given order, and the
/// relevant items in increasing order. `None` when it does not check out.
pub fn solution_from_usage(
    recipes: &Vec<Recipe>,
    usage: Vec<(usize, i64)>,
    starting_items: &ItemSet,
    target: &ItemSet,
    relevant_item_ids: &Vec<ItemId>,
    disabled_recipe_ids: &Vec<usize>,
) -> (solution: Option<CraftingSolution>)
    requires
        no_duplicates(relevant_item_ids@),
    ensures
        solution is Some <==> usage_checks(
            recipes@,
            usage@,
            starting_items@,
            target@,
            relevant_item_ids@,
            disabled_recipe_ids@,
        ),
        solution matches Some(sol) ==> {
            &&& sol.recipe_values@ == usage@
            &&& sol.final_inventory_values@.len() == relevant_item_ids@.len()
            &&& forall|q: int| 0 <= q < relevant_item_ids@.len() ==> (#[trigger] sol.final_inventory_values@[q]).0
                == relevant_item_ids@[q] && sol.final_inventory_values@[q].1 == final_count(
                starting_items@,
                recipes@,
                usage@,
                relevant_item_ids@[q],
            )
            &&& increasing(sol.relevant_item_ids@)
            &&& forall|x: ItemId| #[trigger] sol.relevant_item_ids@.contains(x) <==> relevant_item_ids@.contains(x)
        },
{
    let finals = match check_solution(recipes, &usage, starting_items, target, relevant_item_ids, disabled_recipe_ids) {
        Some(f) => f,
        None => {
            return None;
        },
    };
    let sorted_item_ids = sort_item_ids(relevant_item_ids);
    Some(CraftingSolution {
        recipe_values: usage,
        final_inventory_values: ItemSet { items: finals },
        relevant_item_ids: sorted_item_ids,
    })
}

/// `pruned` is a ranking of the recipes for the target and `relevant` lists,
/// without repeats, exactly the items its recipes need or produce.
pub open spec fn chosen_ranking(
    recipes: Seq<Recipe>,
    target: Seq<(ItemId, usize)>,
    pruned: Seq<Recipe>,
    relevant: Seq<ItemId>,
) -> bool {
    &&& exists|order: Seq<int>, keys: Seq<Seq<int>>| prioritized(recipes, target, order, keys, pruned)
    &&& no_duplicates(relevant)
    &&& forall|x: ItemId| #[trigger] relevant.contains(x) <==> mentioned_by(pruned, x)
}

/// `pruned` is a ranking of the recipes for the target and `relevant` lists,
/// without repeats, exactly the items its recipes need or produce and the
/// target items.
pub open spec fn search_ranking(
    recipes: Seq<Recipe>,
    target: Seq<(ItemId, usize)>,
    pruned: Seq<Recipe>,
    relevant: Seq<ItemId>,
) -> bool {
    &&& exists|order: Seq<int>, keys: Seq<Seq<int>>| prioritized(recipes, target, order, keys, pruned)
    &&& no_duplicates(relevant)
    &&& forall|x: ItemId| #[trigger] relevant.contains(x) <==> in_play(pruned, target, x)
}

/// Solves the crafting model with the listed recipe identities held at zero
/// usage: recipes are pruned and ranked, usages are fixed in rank order at
/// their least values, and the result is checked. `None` when the model is
/// infeasible, the solver fails, or its answer does not check out.
fn solve_with_disabled_recipes(
    recipes: &Vec<Recipe>,
    starting_items: &ItemSet,
    target: &ItemSet,
    disabled_recipe_ids: &Vec<usize>,
) -> (solution: Option<CraftingSolution>)
    ensures
        exists|pruned: Seq<Recipe>, relevant: Seq<ItemId>|
            #![trigger search_ranking(recipes@, target@, pruned, relevant)]
            search_ranking(recipes@, target@, pruned, relevant) && match solution {
                Some(sol) => disabled_usage(pruned, relevant, starting_items@, target@, disabled_recipe_ids@) == Some(
                    sol.recipe_values@,
                ) && usage_checks(pruned, sol.recipe_values@, starting_items@, target@, relevant, disabled_recipe_ids@),
                None => match disabled_usage(pruned, relevant, starting_items@, target@, disabled_recipe_ids@) {
                    None => true,
                    Some(u) => !usage_checks(pruned, u, starting_items@, target@, relevant, disabled_recipe_ids@),
                },
            },
        solution matches Some(sol) ==> exists|pruned: Seq<Recipe>, order: Seq<int>, keys: Seq<Seq<int>>|
            prioritized(recipes@, target@, order, keys, pruned) && solution_fits(
                pruned,
                starting_items@,
                target@,
                disabled_recipe_ids@,
                sol,
            ),
{
    let ghost given = recipes@;
    let (recipes, pruned_relevant_item_ids) = prioritize_and_prune_relevant_recipes_and_items(recipes, target);
    // every target item is held to its amount, also one that no kept recipe mentions
    let relevant_item_ids = collect_relevant_item_ids(&recipes, target, &pruned_relevant_item_ids);
    proof {
        assert forall|x: ItemId| #[trigger] relevant_item_ids@.contains(x) <==> in_play(recipes@, target@, x) by {
            assert(pruned_relevant_item_ids@.contains(x) <==> mentioned_by(recipes@, x));
        }
    }
    let positions = variable_positions(&recipes);
    let bounds = free_bounds_for(&recipes, disabled_recipe_ids);
    let no_unconstrained: Vec<ItemId> = Vec::new();
    let rows = build_item_flow_expressions_and_constraints(
        &recipes,
        &positions,
        &relevant_item_ids,
        starting_items,
        target,
        &no_unconstrained,
    );
    assert(search_ranking(given, target@, recipes@, relevant_item_ids@));
    let recipe_values = match ranked_usage_of(&recipes, &positions, &bounds, &rows) {
        Some(u) => u,
        None => {
            assert(disabled_usage(recipes@, relevant_item_ids@, starting_items@, target@, disabled_recipe_ids@) is None);
            return None;
        },
    };
    let ghost values = recipe_values@;
    assert(disabled_usage(recipes@, relevant_item_ids@, starting_items@, target@, disabled_recipe_ids@) == Some(values));
    let sol = match solution_from_usage(
        &recipes,
        recipe_values,
        starting_items,
        target,
        &relevant_item_ids,
        disabled_recipe_ids,
    ) {
        Some(sol) => sol,
        None => {
            return None;
        },
    };
    proof {
        let (order, keys) = choose|order: Seq<int>, keys: Seq<Seq<int>>| prioritized(given, target@, order, keys, recipes@);
        let usage = sol.recipe_values@;
        let finals = sol.final_inventory_values@;
        assert(usage == values);
        assert(keys_distinct(finals)) by {
            assert forall|a: int, b: int| 0 <= a < b < finals.len() implies finals[a].0 != finals[b].0 by {
                assert(finals[a].0 == relevant_item_ids@[a] && finals[b].0 == relevant_item_ids@[b]);
            }
        }
        assert forall|x: ItemId| #[trigger] relevant_item_ids@.contains(x) implies has_key(finals, x) && count_of(finals, x)
            == final_count(starting_items@, recipes@, usage, x) by {
            let q = choose|q: int| 0 <= q < relevant_item_ids@.len() && relevant_item_ids@[q] == x;
            assert(finals[q].0 == x);
            lemma_key_index(finals, x);
            assert(key_index(finals, x) == q) by {
                if key_index(finals, x) != q {
                    assert(finals[key_index(finals, x)].0 == x);
                }
            }
        }
        assert forall|x: ItemId| #[trigger] has_key(finals, x) implies relevant_item_ids@.contains(x) by {
            let q = choose|q: int| 0 <= q < finals.len() && #[trigger] finals[q].0 == x;
            assert(relevant_item_ids@[q] == x);
        }
        assert forall|x: ItemId| #[trigger] sol.relevant_item_ids@.contains(x) <==> in_play(recipes@, target@, x) by {
            assert(relevant_item_ids@.contains(x) <==> in_play(recipes@, target@, x));
        }
        assert forall|x: ItemId| #[trigger] has_key(sol.final_inventory_values@, x) <==> in_play(recipes@, target@, x) by {
            assert(relevant_item_ids@.contains(x) <==> in_play(recipes@, target@, x));
        }
        assert forall|x: ItemId| #[trigger] in_play(recipes@, target@, x) implies final_count(starting_items@, recipes@, usage, x)
            >= count_of(target@, x) && sol.final_inventory_values.spec_count(x) == final_count(starting_items@, recipes@, usage, x) by {
            assert(relevant_item_ids@.contains(x));
        }
        assert(solution_fits(recipes@, starting_items@, target@, disabled_recipe_ids@, sol));
        assert(prioritized(given, target@, order, keys, recipes@));
    }
    Some(sol)
}

/// `plan` executes the usage: it applies each recipe identity as often as its
/// usage says, only applies given recipes, each step at least once, never
/// repeats an identity in the next step, and, where recipes sharing an
/// identity have the same content, runs from `start`. It merges, step by step,
/// batches that each find all their inputs at once when their turn comes.
pub open spec fn executable_plan(
    recipes: Seq<Recipe>,
    start: Seq<(ItemId, usize)>,
    usage: Seq<(usize, i64)>,
    plan: Seq<(Recipe, usize)>,
) -> bool {
    &&& identity_fixes_content(recipes) ==> plan_runs(stock(start), plan_views(plan))
    &&& forall|j: int| 0 <= j < recipes.len() ==> steps_total(plan_views(plan), #[trigger] recipes[j].unique_id)
        == usage_count(value_of(usage, recipes[j].unique_id))
    &&& forall|id: usize| #[trigger] steps_total(plan_views(plan), id) > 0 ==> has_recipe_id(recipes, id)
    &&& forall|k: int| 0 <= k < plan.len() ==> (#[trigger] plan[k]).1 >= 1 && exists|j: int|
        0 <= j < recipes.len() && plan[k].0@ == recipes[j]@
    &&& forall|k: int| 0 <= k < plan.len() - 1 ==> (#[trigger] plan[k]).0.unique_id != plan[k + 1].0.unique_id
    &&& exists|raw: Seq<(RecipeView, usize)>|
        #[trigger] batches_affordable(stock(start), raw) && plan_views(plan) == merge_steps(raw)
}

/// The position at which `id` enters the increasing list `d`.
pub open spec fn insert_point(d: Seq<usize>, id: usize) -> int {
    choose|p: int| 0 <= p <= d.len() && (forall|a: int| 0 <= a < p ==> #[trigger] d[a] < id) && (p < d.len() ==> d[p] >= id)
}

/// The increasing list `d` with `id` added.
pub open spec fn with_id(d: Seq<usize>, id: usize) -> Seq<usize> {
    d.insert(insert_point(d, id), id)
}

/// Adds `id` to an increasing list that lacks it.
fn insert_increasing(d: &Vec<usize>, id: usize) -> (r: Vec<usize>)
    requires
        increasing(d@),
        !d@.contains(id),
    ensures
        r@ == with_id(d@, id),
        r@.len() == d@.len() + 1,
        increasing(r@),
        forall|x: usize| #[trigger] r@.contains(x) <==> (d@.contains(x) || x == id),
{
    let mut p: usize = 0;
    while p < d.len() && d[p] < id
        invariant
            p <= d@.len(),
            forall|a: int| 0 <= a < p ==> d@[a] < id,
        decreases d.len() - p,
    {
        p = p + 1;
    }
    proof {
        let q = insert_point(d@, id);
        assert(exists|p0: int| 0 <= p0 <= d@.len() && (forall|a: int| 0 <= a < p0 ==> #[trigger] d@[a] < id) && (p0 < d@.len()
            ==> d@[p0] >= id)) by {
            assert(p < d@.len() ==> d@[p as int] >= id);
        }
        if q < p {
            assert(d@[q] >= id);
        } else if q > p {
            assert(d@[p as int] < id);
        }
        assert(q == p);
    }
    let mut r = d.clone();
    assert(r@ =~= d@);
    r.insert(p, id);
    proof {
        assert(p < d@.len() ==> d@[p as int] != id) by {
            if p < d@.len() && d@[p as int] == id {
                assert(d@.contains(id));
            }
        }
        assert forall|a: int, l: int| 0 <= a < l < r@.len() implies r@[a] < r@[l] by {
            if l < p {
            } else if a < p && l == p {
            } else if a < p {
                assert(r@[l] == d@[l - 1]);
            } else if a == p {
                assert(r@[l] == d@[l - 1]);
                if l - 1 > p {
                    assert(d@[p as int] < d@[l - 1]);
                }
            } else {
                assert(r@[a] == d@[a - 1] && r@[l] == d@[l - 1]);
            }
        }
        assert forall|x: usize| #[trigger] r@.contains(x) <==> (d@.contains(x) || x == id) by {
            if r@.contains(x) {
                let k = choose|k: int| 0 <= k < r@.len() && r@[k] == x;
                if k < p {
                    assert(d@[k] == x);
                } else if k > p {
                    assert(d@[k - 1] == x);
                }
            }
            if d@.contains(x) {
                let k = choose|k: int| 0 <= k < d@.len() && d@[k] == x;
                if k < p {
                    assert(r@[k] == x);
                } else {
                    assert(r@[k + 1] == x);
                }
            }
            if x == id {
                assert(r@[p as int] == x);
            }
        }
    }
    r
}

/// `r` is, as a view, one of the recipes.
pub open spec fn copy_of_one(recipes: Seq<Recipe>, r: Recipe) -> bool {
    exists|j: int| 0 <= j < recipes.len() && r@ == #[trigger] recipes[j]@
}

/// The views of the first `n` recipes with a positive usage, keeping only
/// the first recipe of each identity.
pub open spec fn used_views(recipes: Seq<Recipe>, usage: Seq<(usize, i64)>, n: int) -> Seq<RecipeView>
    decreases n,
{
    if n <= 0 {
        Seq::empty()
    } else {
        let prev = used_views(recipes, usage, n - 1);
        let r = recipes[n - 1];
        if value_of(usage, r.unique_id) > 0 && !crate::execution_planner::seen_id(recipes, n - 1, r.unique_id) {
            prev.push(r@)
        } else {
            prev
        }
    }
}

/// The recipes with a positive usage, one per identity, in the given order.
fn used_recipes(recipes: &Vec<Recipe>, usage: &Vec<(usize, i64)>) -> (used: Vec<Recipe>)
    ensures
        forall|k: int| 0 <= k < used@.len() ==> copy_of_one(recipes@, #[trigger] used@[k]),
        forall|k: int| 0 <= k < used@.len() ==> value_of(usage@, (#[trigger] used@[k]).unique_id) > 0,
        used@.map_values(|r: Recipe| r@) == used_views(recipes@, usage@, recipes@.len() as int),
{
    let mut used: Vec<Recipe> = Vec::new();
    let mut ids: Vec<usize> = Vec::new();
    let mut j: usize = 0;
    while j < recipes.len()
        invariant
            j <= recipes.len(),
            forall|k: int| 0 <= k < used@.len() ==> copy_of_one(recipes@, #[trigger] used@[k]),
            forall|k: int| 0 <= k < used@.len() ==> value_of(usage@, (#[trigger] used@[k]).unique_id) > 0,
            used@.map_values(|r: Recipe| r@) == used_views(recipes@, usage@, j as int),
            forall|id: usize| #[trigger] ids@.contains(id) <==> (crate::execution_planner::seen_id(recipes@, j as int, id)
                && value_of(usage@, id) > 0),
        decreases recipes.len() - j,
    {
        let recipe = &recipes[j];
        let ghost ids_before = ids@;
        proof {
            assert forall|id: usize| crate::execution_planner::seen_id(recipes@, j + 1, id) == (
            crate::execution_planner::seen_id(recipes@, j as int, id) || recipes@[j as int].unique_id == id) by {
                if crate::execution_planner::seen_id(recipes@, j + 1, id) && recipes@[j as int].unique_id != id {
                    let q = choose|q: int| 0 <= q < j + 1 && #[trigger] recipes@[q].unique_id == id;
                    assert(q < j);
                }
                if crate::execution_planner::seen_id(recipes@, j as int, id) {
                    let q = choose|q: int| 0 <= q < j && #[trigger] recipes@[q].unique_id == id;
                    assert(0 <= q < j + 1);
                }
                if recipes@[j as int].unique_id == id {
                    assert(0 <= j < j + 1 && recipes@[j as int].unique_id == id);
                }
            }
        }
        if lookup_value(usage, recipe.unique_id) > 0 && !vec_has(&ids, recipe.unique_id) {
            ids.push(recipe.unique_id);
            let copy = recipe.clone();
            let ghost before = used@;
            used.push(copy);
            proof {
                assert forall|k: int| 0 <= k < used@.len() implies copy_of_one(recipes@, #[trigger] used@[k]) by {
                    if k < before.len() {
                        assert(used@[k] == before[k]);
                    } else {
                        assert(used@[k]@ == recipes@[j as int]@);
                    }
                }
                assert(used@.map_values(|r: Recipe| r@) =~= before.map_values(|r: Recipe| r@).push(recipes@[j as int]@));
            }
        }
        proof {
            assert forall|id: usize| #[trigger] ids@.contains(id) <==> (crate::execution_planner::seen_id(
                recipes@,
                j + 1,
                id,
            ) && value_of(usage@, id) > 0) by {
                if ids@ != ids_before {
                    assert(ids@ == ids_before.push(recipe.unique_id));
                    if ids@.contains(id) && id != recipe.unique_id {
                        let q = choose|q: int| 0 <= q < ids@.len() && ids@[q] == id;
                        assert(ids_before[q] == id);
                    }
                    if ids_before.contains(id) {
                        let q = choose|q: int| 0 <= q < ids_before.len() && ids_before[q] == id;
                        assert(ids@[q] == id);
                    }
                    if id == recipe.unique_id {
                        assert(ids@[ids_before.len() as int] == id);
                    }
                }
            }
        }
        j = j + 1;
    }
    used
}

/// The identity of the most used recipe of a loop; among equally used ones
/// the last.
fn pick_recipe_to_disable(route: &Vec<Recipe>, solution: &CraftingSolution) -> (id: usize)
    requires
        route@.len() > 0,
    ensures
        most_used_in(route@, solution.recipe_values@, id),
        exists|k: int| 0 <= k < route@.len() && id == route@[k].unique_id,
{
    let mut best: usize = 0;
    let mut best_value = solution.recipe_usage_count(&route[0]);
    let mut k: usize = 1;
    while k < route.len()
        invariant
            1 <= k <= route@.len(),
            best < k,
            best_value == value_of(solution.recipe_values@, route@[best as int].unique_id),
            forall|m: int| 0 <= m < k ==> value_of(solution.recipe_values@, #[trigger] route@[m].unique_id) <= best_value,
            forall|m: int| best < m < k ==> value_of(solution.recipe_values@, #[trigger] route@[m].unique_id) < best_value,
        decreases route.len() - k,
    {
        let value = solution.recipe_usage_count(&route[k]);
        if value >= best_value {
            best = k;
            best_value = value;
        }
        k = k + 1;
    }
    route[best].unique_id
}

/// `id` is the identity of the most used recipe of `route`, the last one
/// among equally used ones.
pub open spec fn most_used_in(route: Seq<Recipe>, usage: Seq<(usize, i64)>, id: usize) -> bool {
    exists|k: int|
        0 <= k < route.len() && id == route[k].unique_id && (forall|m: int|
            0 <= m < route.len() ==> value_of(usage, #[trigger] route[m].unique_id) <= value_of(usage, route[k].unique_id))
            && (forall|m: int| k < m < route.len() ==> value_of(usage, #[trigger] route[m].unique_id) < value_of(
            usage,
            route[k].unique_id,
        ))
}

/// `ids` names a recipe of `recipes` each, one per loop among the recipes that
/// `usage` uses, in the order the loop report lists the loops: the identity of
/// the loop's most used recipe.
pub open spec fn breaks_loops(recipes: Seq<Recipe>, usage: Seq<(usize, i64)>, ids: Seq<usize>) -> bool {
    &&& forall|l: int| 0 <= l < ids.len() ==> has_recipe_id(recipes, #[trigger] ids[l])
    &&& exists|used: Seq<Recipe>, found: Seq<Seq<usize>>, in_loop: Seq<(usize, bool)>, loops: Seq<Vec<Recipe>>|
        #![trigger loops_describe(used, found, in_loop, loops)]
        used.map_values(|r: Recipe| r@) == used_views(recipes, usage, recipes.len() as int) && loops_describe(
            used,
            found,
            in_loop,
            loops,
        ) && ids.len() == loops.len() && forall|l: int|
            0 <= l < loops.len() ==> most_used_in((#[trigger] loops[l])@, usage, ids[l])
}

/// The identities to hold at zero next, when a solution cannot be carried
/// out: among the recipes the solution uses (one per identity), every loop
/// of recipes feeding each other, in the order the loop report lists them,
/// gives the identity of its most used recipe.
#[verifier::spinoff_prover]
#[verifier::rlimit(40)]
pub fn loop_breaking_choices(recipes: &Vec<Recipe>, solution: &CraftingSolution) -> (ids: Vec<usize>)
    ensures
        breaks_loops(recipes@, solution.recipe_values@, ids@),
{
    let used = used_recipes(recipes, &solution.recipe_values);
    let (in_loop, loops) = detect_recipe_cycles(&used);
    let ghost found = choose|found: Seq<Seq<usize>>| loops_describe(used@, found, in_loop@, loops@);
    proof {
        lemma_loops_from_recipes(recipes@, used@, found, in_loop@, loops@);
    }
    let mut ids: Vec<usize> = Vec::new();
    let mut l: usize = 0;
    while l < loops.len()
        invariant
            l <= loops@.len(),
            forall|q: int| 0 <= q < loops@.len() ==> (#[trigger] loops@[q])@.len() > 0,
            forall|q: int, k: int|
                0 <= q < loops@.len() && 0 <= k < loops@[q]@.len() ==> has_recipe_id(recipes@, #[trigger] loops@[q]@[k].unique_id),
            ids@.len() == l,
            forall|q: int| 0 <= q < l ==> has_recipe_id(recipes@, #[trigger] ids@[q]),
            forall|q: int| 0 <= q < l ==> most_used_in((#[trigger] loops@[q])@, solution.recipe_values@, ids@[q]),
        decreases loops.len() - l,
    {
        let route = &loops[l];
        let recipe_id = pick_recipe_to_disable(route, solution);
        proof {
            let k = choose|k: int| 0 <= k < route@.len() && recipe_id == route@[k].unique_id;
            assert(has_recipe_id(recipes@, loops@[l as int]@[k].unique_id));
        }
        ids.push(recipe_id);
        l = l + 1;
    }
    ids
}

/// The loops found among the used recipes are non-empty and made of recipes
/// of the given list.
proof fn lemma_loops_from_recipes(
    recipes: Seq<Recipe>,
    used: Seq<Recipe>,
    found: Seq<Seq<usize>>,
    in_loop: Seq<(usize, bool)>,
    loops: Seq<Vec<Recipe>>,
)
    requires
        loops_describe(used, found, in_loop, loops),
        forall|k: int| 0 <= k < used.len() ==> copy_of_one(recipes, #[trigger] used[k]),
    ensures
        forall|q: int| 0 <= q < loops.len() ==> (#[trigger] loops[q])@.len() > 0,
        forall|q: int, k: int|
            0 <= q < loops.len() && 0 <= k < loops[q]@.len() ==> has_recipe_id(recipes, #[trigger] loops[q]@[k].unique_id),
{
    assert forall|q: int| 0 <= q < loops.len() implies (#[trigger] loops[q])@.len() > 0 by {
        assert(lists_recipes_at(used, found[q], loops[q]@));
        assert(crate::recipe_analysis::cycle_form(used, found[q]));
        let c = choose|c: Seq<usize>| crate::recipe_analysis::simple_cycle(used, c) && crate::recipe_analysis::least_rotation(c, found[q]);
        let sh = choose|sh: int| 0 <= sh < c.len() && found[q] == crate::recipe_analysis::rotate(c, sh);
    }
    assert forall|q: int, k: int| 0 <= q < loops.len() && 0 <= k < loops[q]@.len() implies has_recipe_id(
        recipes,
        #[trigger] loops[q]@[k].unique_id,
    ) by {
        assert(lists_recipes_at(used, found[q], loops[q]@));
        let u = found[q][k];
        assert(loops[q]@[k]@ == used[u as int]@);
        assert(copy_of_one(recipes, used[u as int]));
        let j = choose|j: int| 0 <= j < recipes.len() && used[u as int]@ == recipes[j]@;
        assert(recipes[j].unique_id == loops[q]@[k].unique_id);
    }
}

/// `base` to the power `e`.
pub open spec fn power(base: int, e: nat) -> int
    decreases e,
{
    if e == 0 {
        1
    } else {
        base * power(base, (e - 1) as nat)
    }
}

proof fn lemma_power_positive(base: int, e: nat)
    requires
        base >= 1,
    ensures
        power(base, e) >= 1,
    decreases e,
{
    if e > 0 {
        lemma_power_positive(base, (e - 1) as nat);
        let p = power(base, (e - 1) as nat);
        assert(base * p >= 1) by (nonlinear_arith)
            requires
                base >= 1,
                p >= 1,
        ;
    }
}

/// The weight of a pending attempt with `len` disabled identities out of `n`:
/// an attempt can spawn at most `n - len` others, each of weight `1 / (n + 1)`
/// of its own.
pub open spec fn attempt_weight(len: nat, n: nat) -> int {
    if len <= n {
        power(n + 1int, (n - len) as nat)
    } else {
        0
    }
}

/// The total weight of the pending attempts.
pub open spec fn attempts_weight(attempts: Seq<Vec<usize>>, n: nat) -> int
    decreases attempts.len(),
{
    if attempts.len() == 0 {
        0
    } else {
        attempts_weight(attempts.drop_last(), n) + attempt_weight(attempts.last()@.len(), n)
    }
}

proof fn lemma_attempts_weight_nonneg(attempts: Seq<Vec<usize>>, n: nat)
    ensures
        attempts_weight(attempts, n) >= 0,
    decreases attempts.len(),
{
    if attempts.len() > 0 {
        lemma_attempts_weight_nonneg(attempts.drop_last(), n);
        if attempts.last()@.len() <= n {
            lemma_power_positive(n + 1int, (n - attempts.last()@.len()) as nat);
        }
    }
}

/// Replacing an attempt of `s` entries by `m <= n - s` attempts of `s + 1`
/// entries lowers the weight.
proof fn lemma_children_lighter(s: nat, m: nat, n: nat)
    requires
        s + m <= n,
    ensures
        m * attempt_weight(s + 1, n) < attempt_weight(s, n),
{
    lemma_power_positive(n + 1int, (n - s) as nat);
    if m > 0 {
        let k = (n - s - 1) as nat;
        lemma_power_positive(n + 1int, k);
        let p = power(n + 1int, k);
        assert(power(n + 1int, (n - s) as nat) == (n + 1) * p);
        assert(m * p < (n + 1) * p) by (nonlinear_arith)
            requires
                m <= n,
                p >= 1,
        ;
    }
}

/// The identities of the recipes.
pub open spec fn recipe_ids(recipes: Seq<Recipe>) -> Set<usize> {
    recipes.map_values(|r: Recipe| r.unique_id).to_set()
}

/// An attempt: increasing identities of the recipes.
pub open spec fn attempt_ok(recipes: Seq<Recipe>, a: Seq<usize>) -> bool {
    &&& increasing(a)
    &&& forall|k: int| 0 <= k < a.len() ==> has_recipe_id(recipes, #[trigger] a[k])
}

proof fn lemma_recipe_ids(recipes: Seq<Recipe>)
    ensures
        recipe_ids(recipes).finite(),
        forall|id: usize| #[trigger] recipe_ids(recipes).contains(id) <==> has_recipe_id(recipes, id),
{
    let ids = recipes.map_values(|r: Recipe| r.unique_id);
    assert forall|id: usize| #[trigger] recipe_ids(recipes).contains(id) <==> has_recipe_id(recipes, id) by {
        if has_recipe_id(recipes, id) {
            let j = choose|j: int| 0 <= j < recipes.len() && #[trigger] recipes[j].unique_id == id;
            assert(ids[j] == id);
        }
        if recipe_ids(recipes).contains(id) {
            let j = choose|j: int| 0 <= j < ids.len() && ids[j] == id;
            assert(recipes[j].unique_id == id);
        }
    }
}

/// An attempt is no longer than the number of identities, and so are an
/// attempt and new identities outside it together.
proof fn lemma_attempt_size(recipes: Seq<Recipe>, a: Seq<usize>, added: Seq<usize>)
    requires
        attempt_ok(recipes, a),
        added.no_duplicates(),
        forall|k: int| 0 <= k < added.len() ==> has_recipe_id(recipes, #[trigger] added[k]) && !a.contains(added[k]),
    ensures
        a.len() + added.len() <= recipe_ids(recipes).len(),
{
    lemma_recipe_ids(recipes);
    let all = a + added;
    assert(all.no_duplicates()) by {
        assert forall|x: int, y: int| 0 <= x < all.len() && 0 <= y < all.len() && x != y implies all[x] != all[y] by {
            if x < a.len() && y < a.len() {
                if x < y {
                    assert(a[x] < a[y]);
                } else {
                    assert(a[y] < a[x]);
                }
            } else if x < a.len() {
                assert(all[y] == added[y - a.len()]);
                assert(!a.contains(added[y - a.len()]));
            } else if y < a.len() {
                assert(all[x] == added[x - a.len()]);
                assert(!a.contains(added[x - a.len()]));
            } else {
                assert(all[x] == added[x - a.len()] && all[y] == added[y - a.len()]);
            }
        }
    }
    assert forall|t: int| 0 <= t < all.len() implies recipe_ids(recipes).contains(#[trigger] all[t]) by {
        if t < a.len() {
            assert(has_recipe_id(recipes, a[t]));
        } else {
            assert(all[t] == added[t - a.len()]);
        }
    }
    lemma_distinct_within(all, recipe_ids(recipes));
}

/// The attempts after `base` are `d` with each of the distinct identities
/// `added`, all tried before, and the weights add up.
#[verifier::opaque]
pub open spec fn children_ok(
    recipes: Seq<Recipe>,
    d: Seq<usize>,
    base: Seq<Vec<usize>>,
    added: Seq<usize>,
    attempts: Seq<Vec<usize>>,
    visited: Seq<Vec<usize>>,
    n: nat,
) -> bool {
    &&& attempt_ok(recipes, d)
    &&& n == recipe_ids(recipes).len()
    &&& recipe_ids(recipes).finite()
    &&& attempts.len() == base.len() + added.len()
    &&& forall|k: int| 0 <= k < base.len() ==> attempts[k] == #[trigger] base[k]
    &&& forall|k: int| 0 <= k < added.len() ==> (#[trigger] attempts[base.len() + k])@ == with_id(d, added[k])
    &&& forall|k: int| 0 <= k < attempts.len() ==> attempt_ok(recipes, (#[trigger] attempts[k])@)
    &&& added.no_duplicates()
    &&& forall|k: int| 0 <= k < added.len() ==> has_recipe_id(recipes, #[trigger] added[k]) && !d.contains(added[k])
    &&& forall|k: int| 0 <= k < added.len() ==> index_views(visited).contains(with_id(d, #[trigger] added[k]))
    &&& attempts_weight(attempts, n) == attempts_weight(base, n) + added.len() * attempt_weight(d.len() + 1, n)
}

/// Queueing `d` with the new identity `id`, after recording it as tried,
/// keeps `children_ok`.
proof fn lemma_record_attempt(
    recipes: Seq<Recipe>,
    d: Seq<usize>,
    base: Seq<Vec<usize>>,
    added: Seq<usize>,
    attempts_before: Seq<Vec<usize>>,
    attempts_after: Seq<Vec<usize>>,
    visited_before: Seq<Vec<usize>>,
    visited_after: Seq<Vec<usize>>,
    id: usize,
    n: nat,
)
    requires
        children_ok(recipes, d, base, added, attempts_before, visited_before, n),
        has_recipe_id(recipes, id),
        !d.contains(id),
        attempts_after.len() == attempts_before.len() + 1,
        attempts_after.drop_last() == attempts_before,
        attempts_after.last()@ == with_id(d, id),
        attempts_after.last()@.len() == d.len() + 1,
        forall|x: usize| #[trigger] attempts_after.last()@.contains(x) <==> (d.contains(x) || x == id),
        increasing(attempts_after.last()@),
        !(exists|m: int| 0 <= m < visited_before.len() && #[trigger] visited_before[m]@ == with_id(d, id)),
        visited_after.len() == visited_before.len() + 1,
        visited_after.drop_last() == visited_before,
        visited_after.last()@ == with_id(d, id),
    ensures
        children_ok(recipes, d, base, added.push(id), attempts_after, visited_after, n),
{
    reveal(children_ok);
    let next = attempts_after.last()@;
    assert(!added.contains(id)) by {
        if added.contains(id) {
            let k = choose|k: int| 0 <= k < added.len() && added[k] == id;
            assert(index_views(visited_before).contains(with_id(d, added[k])));
            let m = choose|m: int| 0 <= m < index_views(visited_before).len() && index_views(visited_before)[m] == with_id(d, added[k]);
            assert(visited_before[m]@ == with_id(d, id));
        }
    }
    let added2 = added.push(id);
    assert(added2.no_duplicates()) by {
        assert forall|x: int, y: int| 0 <= x < added2.len() && 0 <= y < added2.len() && x != y implies added2[x] != added2[y] by {
            if x == added.len() as int {
                assert(added.contains(added[y]));
            } else if y == added.len() as int {
                assert(added.contains(added[x]));
            }
        }
    }
    assert forall|k: int| 0 <= k < added2.len() implies index_views(visited_after).contains(with_id(d, #[trigger] added2[k])) by {
        if k < added.len() {
            assert(index_views(visited_before).contains(with_id(d, added[k])));
            let m = choose|m: int| 0 <= m < index_views(visited_before).len() && index_views(visited_before)[m] == with_id(d, added[k]);
            assert(visited_after[m] == visited_before[m]);
            assert(index_views(visited_after)[m] == with_id(d, added[k]));
        } else {
            assert(index_views(visited_after)[visited_before.len() as int] == with_id(d, id));
        }
    }
    assert(attempt_ok(recipes, next)) by {
        assert forall|k: int| 0 <= k < next.len() implies has_recipe_id(recipes, #[trigger] next[k]) by {
            assert(next.contains(next[k]));
            if next[k] != id {
                assert(d.contains(next[k]));
                let q = choose|q: int| 0 <= q < d.len() && d[q] == next[k];
            }
        }
    }
    assert forall|k: int| 0 <= k < attempts_after.len() implies attempt_ok(recipes, (#[trigger] attempts_after[k])@) by {
        if k < attempts_before.len() {
            assert(attempts_after[k] == attempts_before[k]);
        }
    }
    assert forall|k: int| 0 <= k < base.len() implies attempts_after[k] == #[trigger] base[k] by {
        assert(attempts_after[k] == attempts_before[k]);
    }
    assert forall|k: int| 0 <= k < added2.len() implies (#[trigger] attempts_after[base.len() + k])@ == with_id(d, added2[k]) by {
        if k < added.len() {
            assert(attempts_after[base.len() + k] == attempts_before[base.len() + k]);
        }
    }
    crate::route_keys::lemma_mul_step(added.len() as int, attempt_weight(d.len() + 1, n));
}

/// For every ranking of the recipes, the first attempt (no identity held at
/// zero) yields a usage that checks out and can be carried out from the start.
pub open spec fn first_attempt_plannable(
    recipes: Seq<Recipe>,
    start: Seq<(ItemId, usize)>,
    target: Seq<(ItemId, usize)>,
) -> bool {
    forall|pruned: Seq<Recipe>, relevant: Seq<ItemId>|
        #[trigger] search_ranking(recipes, target, pruned, relevant) ==> match disabled_usage(
            pruned,
            relevant,
            start,
            target,
            Seq::empty(),
        ) {
            Some(u) => usage_checks(pruned, u, start, target, relevant, Seq::empty())
                && crate::execution_planner::plannable(recipes, u, stock(start)),
            None => false,
        }
}

/// For every ranking of the recipes, the first attempt (no identity held at
/// zero) has no solution, or none that checks out.
pub open spec fn first_attempt_unsolvable(
    recipes: Seq<Recipe>,
    start: Seq<(ItemId, usize)>,
    target: Seq<(ItemId, usize)>,
) -> bool {
    forall|pruned: Seq<Recipe>, relevant: Seq<ItemId>|
        #[trigger] search_ranking(recipes, target, pruned, relevant) ==> match disabled_usage(
            pruned,
            relevant,
            start,
            target,
            Seq::empty(),
        ) {
            Some(u) => !usage_checks(pruned, u, start, target, relevant, Seq::empty()),
            None => true,
        }
}

/// When the first attempt is unsolvable, no solution comes back for it.
proof fn lemma_first_unsolvable(
    recipes: Seq<Recipe>,
    start: Seq<(ItemId, usize)>,
    target: Seq<(ItemId, usize)>,
    disabled: Seq<usize>,
    solution: Option<CraftingSolution>,
)
    requires
        first_attempt_unsolvable(recipes, start, target),
        disabled == Seq::<usize>::empty(),
        exists|pruned: Seq<Recipe>, relevant: Seq<ItemId>|
            #![trigger search_ranking(recipes, target, pruned, relevant)]
            search_ranking(recipes, target, pruned, relevant) && match solution {
                Some(sol) => disabled_usage(pruned, relevant, start, target, disabled) == Some(sol.recipe_values@)
                    && usage_checks(pruned, sol.recipe_values@, start, target, relevant, disabled),
                None => match disabled_usage(pruned, relevant, start, target, disabled) {
                    None => true,
                    Some(u) => !usage_checks(pruned, u, start, target, relevant, disabled),
                },
            },
    ensures
        solution is None,
{
    let (pruned, relevant) = choose|pruned: Seq<Recipe>, relevant: Seq<ItemId>|
        #![trigger search_ranking(recipes, target, pruned, relevant)]
        search_ranking(recipes, target, pruned, relevant) && match solution {
            Some(sol) => disabled_usage(pruned, relevant, start, target, disabled) == Some(sol.recipe_values@)
                && usage_checks(pruned, sol.recipe_values@, start, target, relevant, disabled),
            None => match disabled_usage(pruned, relevant, start, target, disabled) {
                None => true,
                Some(u) => !usage_checks(pruned, u, start, target, relevant, disabled),
            },
        };
    assert(search_ranking(recipes, target, pruned, relevant));
}

/// When the first attempt is plannable, its solution is found, its usage is
/// not negative and it can be carried out.
proof fn lemma_first_attempt(
    recipes: Seq<Recipe>,
    start: Seq<(ItemId, usize)>,
    target: Seq<(ItemId, usize)>,
    disabled: Seq<usize>,
    solution: Option<CraftingSolution>,
)
    requires
        first_attempt_plannable(recipes, start, target),
        disabled == Seq::<usize>::empty(),
        exists|pruned: Seq<Recipe>, relevant: Seq<ItemId>|
            #![trigger search_ranking(recipes, target, pruned, relevant)]
            search_ranking(recipes, target, pruned, relevant) && match solution {
                Some(sol) => disabled_usage(pruned, relevant, start, target, disabled) == Some(sol.recipe_values@)
                    && usage_checks(pruned, sol.recipe_values@, start, target, relevant, disabled),
                None => match disabled_usage(pruned, relevant, start, target, disabled) {
                    None => true,
                    Some(u) => !usage_checks(pruned, u, start, target, relevant, disabled),
                },
            },
    ensures
        solution matches Some(sol) && crate::execution_planner::plannable(recipes, sol.recipe_values@, stock(start))
            && forall|id: usize| value_of(sol.recipe_values@, id) >= 0,
{
    let (pruned, relevant) = choose|pruned: Seq<Recipe>, relevant: Seq<ItemId>|
        #![trigger search_ranking(recipes, target, pruned, relevant)]
        search_ranking(recipes, target, pruned, relevant) && match solution {
            Some(sol) => disabled_usage(pruned, relevant, start, target, disabled) == Some(sol.recipe_values@)
                && usage_checks(pruned, sol.recipe_values@, start, target, relevant, disabled),
            None => match disabled_usage(pruned, relevant, start, target, disabled) {
                None => true,
                Some(u) => !usage_checks(pruned, u, start, target, relevant, disabled),
            },
        };
    assert(search_ranking(recipes, target, pruned, relevant));
    let sol = solution->0;
    assert forall|id: usize| value_of(sol.recipe_values@, id) >= 0 by {
        lemma_key_index(sol.recipe_values@, id);
        if key_index(sol.recipe_values@, id) >= 0 {
            assert(sol.recipe_values@[key_index(sol.recipe_values@, id)].1 >= 0);
        }
    }
}

/// One attempt of the search: the identities held at zero, the usage its
/// solve gave (if any), and the identities chosen to break loops next.
pub type AttemptRecord = (Seq<usize>, Option<Seq<(usize, i64)>>, Seq<usize>);

/// The search's state: attempts still to try (the last one next), attempts
/// ever queued, and the fallback set so far.
pub type SearchState = (Seq<Seq<usize>>, Seq<Seq<usize>>, Seq<usize>);

/// What solving with the identities `d` held at zero gives, for some ranking
/// of the recipes: the usage of the rank-order solve when it checks out,
/// otherwise nothing.
pub open spec fn solve_outcome(
    recipes: Seq<Recipe>,
    start: Seq<(ItemId, usize)>,
    target: Seq<(ItemId, usize)>,
    d: Seq<usize>,
    values: Option<Seq<(usize, i64)>>,
) -> bool {
    exists|pruned: Seq<Recipe>, relevant: Seq<ItemId>|
        #![trigger search_ranking(recipes, target, pruned, relevant)]
        search_ranking(recipes, target, pruned, relevant) && match values {
            Some(v) => disabled_usage(pruned, relevant, start, target, d) == Some(v) && usage_checks(
                pruned,
                v,
                start,
                target,
                relevant,
                d,
            ),
            None => match disabled_usage(pruned, relevant, start, target, d) {
                None => true,
                Some(u) => !usage_checks(pruned, u, start, target, relevant, d),
            },
        }
}

/// The usage values of an optional solution.
pub open spec fn solution_values(solution: Option<CraftingSolution>) -> Option<Seq<(usize, i64)>> {
    match solution {
        Some(s) => Some(s.recipe_values@),
        None => None,
    }
}

/// The usage cannot be turned into a plan: some count is negative, or no
/// order of single applications carries it out from the start.
pub open spec fn plan_refused(recipes: Seq<Recipe>, start: Seq<(ItemId, usize)>, usage: Seq<(usize, i64)>) -> bool {
    !((forall|j: int| 0 <= j < recipes.len() ==> value_of(usage, #[trigger] recipes[j].unique_id) >= 0)
        && crate::execution_planner::plannable(recipes, usage, stock(start)))
}

/// A failed attempt: its solve gave nothing (and no choices), or a usage that
/// cannot be planned, with the loop-breaking choices for it.
#[verifier::opaque]
pub open spec fn attempt_failed(
    recipes: Seq<Recipe>,
    start: Seq<(ItemId, usize)>,
    target: Seq<(ItemId, usize)>,
    r: AttemptRecord,
) -> bool {
    &&& solve_outcome(recipes, start, target, r.0, r.1)
    &&& r.1 is None ==> r.2.len() == 0
    &&& r.1 matches Some(v) ==> plan_refused(recipes, start, v) && breaks_loops(recipes, v, r.2)
}

/// Queues `d` with each choice in turn, skipping choices already in `d` and
/// sets queued before.
#[verifier::opaque]
pub open spec fn queue_children(d: Seq<usize>, choices: Seq<usize>, st: SearchState) -> SearchState
    decreases choices.len(),
{
    if choices.len() == 0 {
        st
    } else {
        let before = queue_children(d, choices.drop_last(), st);
        let c = choices.last();
        if d.contains(c) || before.1.contains(with_id(d, c)) {
            before
        } else {
            (before.0.push(with_id(d, c)), before.1.push(with_id(d, c)), before.2)
        }
    }
}

/// The state after the next attempt failed as `r` says: with no choices it
/// becomes the fallback when it is longer than the one so far; otherwise its
/// children are queued.
#[verifier::opaque]
pub open spec fn settle_attempt(st: SearchState, r: AttemptRecord) -> SearchState {
    let popped = (st.0.drop_last(), st.1, st.2);
    if r.2.len() == 0 {
        if r.0.len() > st.2.len() {
            (popped.0, popped.1, r.0)
        } else {
            popped
        }
    } else {
        queue_children(r.0, r.2, popped)
    }
}

/// The state after the failed attempts `records`, starting from the attempt
/// that holds nothing at zero.
#[verifier::opaque]
pub open spec fn search_replay(records: Seq<AttemptRecord>) -> SearchState
    decreases records.len(),
{
    if records.len() == 0 {
        (seq![Seq::<usize>::empty()], seq![Seq::<usize>::empty()], Seq::<usize>::empty())
    } else {
        settle_attempt(search_replay(records.drop_last()), records.last())
    }
}

/// `records` are the search's failed attempts in order: each one is the
/// attempt next in line at its turn, and failed.
#[verifier::opaque]
pub open spec fn search_trace(
    recipes: Seq<Recipe>,
    start: Seq<(ItemId, usize)>,
    target: Seq<(ItemId, usize)>,
    records: Seq<AttemptRecord>,
) -> bool {
    forall|k: int| 0 <= k < records.len() ==> search_replay(records.take(k)).0.len() > 0 && (#[trigger] records[k]).0
        == search_replay(records.take(k)).0.last() && attempt_failed(recipes, start, target, records[k])
}

/// The search starts with the empty attempt queued and tried, and no failure.
proof fn lemma_trace_start(recipes: Seq<Recipe>, start: Seq<(ItemId, usize)>, target: Seq<(ItemId, usize)>)
    ensures
        search_trace(recipes, start, target, Seq::empty()),
        search_replay(Seq::empty()) == (
            seq![Seq::<usize>::empty()],
            seq![Seq::<usize>::empty()],
            Seq::<usize>::empty(),
        ),
{
    reveal(search_trace);
    reveal(search_replay);
}

/// Queueing the choices up to `l + 1` is queueing those up to `l`, then
/// choice `l` unless it is in `d` or its set was queued before.
proof fn lemma_queue_step(d: Seq<usize>, choices: Seq<usize>, l: int, st: SearchState)
    requires
        0 <= l < choices.len(),
    ensures
        queue_children(d, choices.take(0), st) == st,
        ({
            let before = queue_children(d, choices.take(l), st);
            let c = choices[l];
            queue_children(d, choices.take(l + 1), st) == if d.contains(c) || before.1.contains(with_id(d, c)) {
                before
            } else {
                (before.0.push(with_id(d, c)), before.1.push(with_id(d, c)), before.2)
            }
        }),
{
    reveal(queue_children);
    assert(choices.take(0).len() == 0);
    assert(choices.take(l + 1).drop_last() =~= choices.take(l));
    assert(choices.take(l + 1).last() == choices[l]);
}

/// The search finds the usage `values`: after a run of failed attempts, the
/// attempt next in line solves to it.
pub open spec fn search_found(
    recipes: Seq<Recipe>,
    start: Seq<(ItemId, usize)>,
    target: Seq<(ItemId, usize)>,
    values: Seq<(usize, i64)>,
) -> bool {
    exists|records: Seq<AttemptRecord>|
        #[trigger] search_trace(recipes, start, target, records) && search_replay(records).0.len() > 0 && solve_outcome(
            recipes,
            start,
            target,
            search_replay(records).0.last(),
            Some(values),
        )
}

/// The search gives up with the fallback set `ids`: a run of failed attempts
/// empties the queue, and `ids` is its fallback set.
pub open spec fn search_gave_up(
    recipes: Seq<Recipe>,
    start: Seq<(ItemId, usize)>,
    target: Seq<(ItemId, usize)>,
    ids: Seq<usize>,
) -> bool {
    exists|records: Seq<AttemptRecord>|
        #[trigger] search_trace(recipes, start, target, records) && search_replay(records).0.len() == 0
            && search_replay(records).2 == ids
}

/// A trace extended by the failure of the attempt next in line.
#[verifier::spinoff_prover]
#[verifier::rlimit(60)]
proof fn lemma_trace_push(
    recipes: Seq<Recipe>,
    start: Seq<(ItemId, usize)>,
    target: Seq<(ItemId, usize)>,
    records: Seq<AttemptRecord>,
    r: AttemptRecord,
)
    requires
        search_trace(recipes, start, target, records),
        search_replay(records).0.len() > 0,
        r.0 == search_replay(records).0.last(),
        attempt_failed(recipes, start, target, r),
    ensures
        search_trace(recipes, start, target, records.push(r)),
        search_replay(records.push(r)) == settle_attempt(search_replay(records), r),
{
    reveal(search_trace);
    reveal(search_replay);
    let t = records.push(r);
    assert(t.drop_last() =~= records);
    assert forall|k: int| 0 <= k < t.len() implies search_replay(t.take(k)).0.len() > 0 && (#[trigger] t[k]).0
        == search_replay(t.take(k)).0.last() && attempt_failed(recipes, start, target, t[k]) by {
        if k < records.len() {
            assert(t.take(k) =~= records.take(k));
            assert(t[k] == records[k]);
            assert(search_replay(records.take(k)).0.len() > 0);
            assert(search_replay(t.take(k)).0.len() > 0);
        } else {
            assert(t.take(k) =~= records);
            assert(t[k] == r);
        }
    }
    assert(search_trace(recipes, start, target, t));
}

/// Looks for a solution whose usages can be executed in order. Each attempt
/// holds some recipe identities at zero; when its solution cannot be executed,
/// the most used recipe of each loop among the used recipes is disabled in a
/// new attempt, unless that set of identities was tried before. Returns the
/// solution with its plan, or, when no attempt succeeds, the largest disabled
/// set among the attempts that had no solution or no loop to break (the
/// first such, by size).
#[verifier::rlimit(60)]
#[verifier::spinoff_prover]
pub fn find_executable_solution_via_cycle_elimination(
    recipes: Vec<Recipe>,
    starting_items: ItemSet,
    target: ItemSet,
) -> (result: Result<(CraftingSolution, Vec<(Recipe, usize)>), Vec<usize>>)
    ensures
        result matches Ok((sol, plan)) ==> {
            &&& exists|pruned: Seq<Recipe>, order: Seq<int>, keys: Seq<Seq<int>>, disabled: Seq<usize>|
                prioritized(recipes@, target@, order, keys, pruned) && solution_fits(
                    pruned,
                    starting_items@,
                    target@,
                    disabled,
                    sol,
                )
            &&& executable_plan(recipes@, starting_items@, sol.recipe_values@, plan@)
        },
        result matches Err(ids) ==> attempt_ok(recipes@, ids@),
        result matches Ok((sol, plan)) ==> search_found(recipes@, starting_items@, target@, sol.recipe_values@),
        result matches Err(ids) ==> search_gave_up(recipes@, starting_items@, target@, ids@),
        first_attempt_plannable(recipes@, starting_items@, target@) ==> result is Ok,
        first_attempt_unsolvable(recipes@, starting_items@, target@) ==> (result matches Err(ids) && ids@.len() == 0),
{
    let ghost first_ok = first_attempt_plannable(recipes@, starting_items@, target@);
    let ghost first_none = first_attempt_unsolvable(recipes@, starting_items@, target@);
    let ghost mut first = true;
    let ghost n = recipe_ids(recipes@).len();
    proof {
        lemma_recipe_ids(recipes@);
    }
    let mut attempts: Vec<Vec<usize>> = Vec::new();
    attempts.push(Vec::new());
    let mut visited: Vec<Vec<usize>> = Vec::new();
    visited.push(Vec::new());
    let mut best_fallback_disabled_recipe_ids: Vec<usize> = Vec::new();
    let ghost mut records: Seq<AttemptRecord> = Seq::empty();
    proof {
        lemma_attempts_weight_nonneg(attempts@, n);
        assert(index_views(attempts@) =~= seq![Seq::<usize>::empty()]);
        assert(index_views(visited@) =~= seq![Seq::<usize>::empty()]);
        assert(best_fallback_disabled_recipe_ids@ =~= Seq::<usize>::empty());
        lemma_trace_start(recipes@, starting_items@, target@);
    }
    while attempts.len() > 0
        invariant
            n == recipe_ids(recipes@).len(),
            recipe_ids(recipes@).finite(),
            forall|k: int| 0 <= k < attempts@.len() ==> attempt_ok(recipes@, (#[trigger] attempts@[k])@),
            attempt_ok(recipes@, best_fallback_disabled_recipe_ids@),
            attempts_weight(attempts@, n) >= 0,
            first_ok == first_attempt_plannable(recipes@, starting_items@, target@),
            first ==> attempts@.len() == 1 && attempts@[0]@ == Seq::<usize>::empty(),
            !first ==> !first_ok,
            first_none == first_attempt_unsolvable(recipes@, starting_items@, target@),
            first_none ==> best_fallback_disabled_recipe_ids@.len() == 0 && (first || attempts@.len() == 0),
            search_trace(recipes@, starting_items@, target@, records),
            search_replay(records) == (index_views(attempts@), index_views(visited@), best_fallback_disabled_recipe_ids@),
        decreases attempts_weight(attempts@, n),
    {
        let ghost was_first = first;
        let ghost before = attempts@;
        let ghost st = search_replay(records);
        let disabled_recipe_ids = attempts.pop().unwrap();
        let ghost d = disabled_recipe_ids@;
        let ghost popped: SearchState = (st.0.drop_last(), st.1, st.2);
        proof {
            assert(d == st.0.last());
            assert(index_views(attempts@) =~= st.0.drop_last());
        }
        proof {
            assert(attempts@ == before.drop_last());
            assert(attempt_ok(recipes@, disabled_recipe_ids@)) by {
                assert(disabled_recipe_ids == before[before.len() - 1]);
            }
            lemma_attempts_weight_nonneg(attempts@, n);
            lemma_attempt_size(recipes@, disabled_recipe_ids@, Seq::empty());
            lemma_power_positive(n + 1int, (n - disabled_recipe_ids@.len()) as nat);
            assert(attempts_weight(attempts@, n) < attempts_weight(before, n));
        }
        proof {
            first = false;
            if was_first {
                assert(disabled_recipe_ids@ == before[0]@);
            }
        }
        let solution = solve_with_disabled_recipes(&recipes, &starting_items, &target, &disabled_recipe_ids);
        let ghost solved = solution;
        proof {
            assert(solve_outcome(recipes@, starting_items@, target@, d, solution_values(solved)));
        }
        proof {
            if was_first && first_ok {
                lemma_first_attempt(recipes@, starting_items@, target@, disabled_recipe_ids@, solution);
            }
            if first_none {
                assert(was_first);
                lemma_first_unsolvable(recipes@, starting_items@, target@, disabled_recipe_ids@, solution);
            }
        }
        let solution = match solution {
            Some(s) => s,
            None => {
                let ghost best_before = best_fallback_disabled_recipe_ids@;
                if disabled_recipe_ids.len() > best_fallback_disabled_recipe_ids.len() {
                    best_fallback_disabled_recipe_ids = disabled_recipe_ids.clone();
                    assert(best_fallback_disabled_recipe_ids@ =~= disabled_recipe_ids@);
                }
                proof {
                    let r: AttemptRecord = (d, None, Seq::empty());
                    reveal(attempt_failed);
                    lemma_trace_push(recipes@, starting_items@, target@, records, r);
                    reveal(settle_attempt);
                    records = records.push(r);
                }
                continue;
            },
        };
        match build_executable_plan_from_recipe_usage(&recipes, &solution.recipe_values, &starting_items) {
            Ok(plan) => {
                proof {
                    assert(executable_plan(recipes@, starting_items@, solution.recipe_values@, plan@));
                    assert(search_replay(records).0.last() == d);
                }
                return Ok((solution, plan));
            },
            Err(_) => {},
        }
        let ghost v = solution.recipe_values@;
        proof {
            assert(plan_refused(recipes@, starting_items@, v));
        }
        assert(was_first ==> !first_ok);
        let choices = loop_breaking_choices(&recipes, &solution);
        if choices.len() == 0 {
            if disabled_recipe_ids.len() > best_fallback_disabled_recipe_ids.len() {
                best_fallback_disabled_recipe_ids = disabled_recipe_ids.clone();
                assert(best_fallback_disabled_recipe_ids@ =~= disabled_recipe_ids@);
            }
            proof {
                let r: AttemptRecord = (d, Some(v), choices@);
                reveal(attempt_failed);
                lemma_trace_push(recipes@, starting_items@, target@, records, r);
                reveal(settle_attempt);
                records = records.push(r);
            }
            continue;
        }
        proof {
            lemma_queue_step(d, choices@, 0, popped);
        }
        let ghost base = attempts@;
        let ghost mut added: Seq<usize> = Seq::empty();
        proof {
            reveal(children_ok);
            assert(attempts@.len() == base.len() + added.len());
            assert(attempts_weight(attempts@, n) == attempts_weight(base, n) + added.len() * attempt_weight(
                disabled_recipe_ids@.len() + 1,
                n,
            ));
        }
        let mut l: usize = 0;
        while l < choices.len()
            invariant
                l <= choices@.len(),
                forall|q: int| 0 <= q < choices@.len() ==> has_recipe_id(recipes@, #[trigger] choices@[q]),
                children_ok(recipes@, disabled_recipe_ids@, base, added, attempts@, visited@, n),
                d == disabled_recipe_ids@,
                (index_views(attempts@), index_views(visited@), best_fallback_disabled_recipe_ids@) == queue_children(
                    d,
                    choices@.take(l as int),
                    popped,
                ),
            decreases choices.len() - l,
        {
            let recipe_id = choices[l];
            let ghost prev = queue_children(d, choices@.take(l as int), popped);
            proof {
                assert(has_recipe_id(recipes@, choices@[l as int]));
                reveal(children_ok);
                lemma_queue_step(d, choices@, l as int, popped);
            }
            if !vec_has(&disabled_recipe_ids, recipe_id) {
                let next_disabled = insert_increasing(&disabled_recipe_ids, recipe_id);
                let seen = contains_cycle(&visited, &next_disabled);
                proof {
                    if seen {
                        let m = choose|m: int| 0 <= m < visited@.len() && #[trigger] visited@[m]@ == next_disabled@;
                        assert(index_views(visited@)[m] == with_id(d, recipe_id));
                    } else {
                        if index_views(visited@).contains(with_id(d, recipe_id)) {
                            let m = choose|m: int| 0 <= m < index_views(visited@).len() && index_views(visited@)[m] == with_id(d, recipe_id);
                            assert(visited@[m]@ == next_disabled@);
                        }
                    }
                }
                if !seen {
                    let ghost visited_before = visited@;
                    let key = next_disabled.clone();
                    let ghost key_copy = key;
                    visited.push(key);
                    let ghost attempts_before = attempts@;
                    let ghost pushed = next_disabled;
                    attempts.push(next_disabled);
                    proof {
                        assert(attempts@ == attempts_before.push(pushed));
                        lemma_push_drop(attempts_before, pushed);
                        assert(visited@ == visited_before.push(key_copy));
                        lemma_push_drop(visited_before, key_copy);
                        lemma_record_attempt(
                            recipes@,
                            disabled_recipe_ids@,
                            base,
                            added,
                            attempts_before,
                            attempts@,
                            visited_before,
                            visited@,
                            recipe_id,
                            n,
                        );
                        added = added.push(recipe_id);
                        assert(index_views(attempts@) =~= index_views(attempts_before).push(with_id(d, recipe_id)));
                        assert(index_views(visited@) =~= index_views(visited_before).push(with_id(d, recipe_id)));
                    }
                }
            }
            l = l + 1;
        }
        proof {
            assert(choices@.take(choices@.len() as int) =~= choices@);
            let r: AttemptRecord = (d, Some(v), choices@);
            reveal(attempt_failed);
            lemma_trace_push(recipes@, starting_items@, target@, records, r);
            reveal(settle_attempt);
            records = records.push(r);
        }
        proof {
            reveal(children_ok);
            lemma_attempt_size(recipes@, disabled_recipe_ids@, added);
            lemma_children_lighter(disabled_recipe_ids@.len(), added.len(), n);
            assert(attempts_weight(before, n) == attempts_weight(base, n) + attempt_weight(disabled_recipe_ids@.len(), n)) by {
                assert(before.drop_last() == base);
            }
            lemma_attempts_weight_nonneg(attempts@, n);
        }
    }
    Err(best_fallback_disabled_recipe_ids)
}

/// Some recipe lists `item` among its outputs.
pub open spec fn has_producer(recipes: Seq<Recipe>, item: ItemId) -> bool {
    exists|j: int| 0 <= j < recipes.len() && #[trigger] has_key(recipes[j].output@, item)
}

/// A usage with no negative count that keeps every item the recipes need or
/// produce at or above its target.
pub open spec fn usage_feasible(
    recipes: Seq<Recipe>,
    start: Seq<(ItemId, usize)>,
    target: Seq<(ItemId, usize)>,
    usage: Seq<(usize, i64)>,
) -> bool {
    &&& forall|k: int| 0 <= k < usage.len() ==> (#[trigger] usage[k]).1 >= 0
    &&& forall|x: ItemId| #[trigger] mentioned_by(recipes, x) ==> final_count(start, recipes, usage, x) >= count_of(target, x)
}

/// `v` as a count: 0 when negative, `usize::MAX` when larger.
pub open spec fn clamp_count(v: int) -> int {
    if v <= 0 {
        0
    } else if v > usize::MAX {
        usize::MAX as int
    } else {
        v
    }
}

fn produced_by_any(recipes: &Vec<Recipe>, item: ItemId) -> (b: bool)
    ensures
        b == has_producer(recipes@, item),
{
    let mut j: usize = 0;
    while j < recipes.len()
        invariant
            j <= recipes.len(),
            forall|q: int| 0 <= q < j ==> !has_key(#[trigger] recipes@[q].output@, item),
        decreases recipes.len() - j,
    {
        if recipes[j].output.contains(item) {
            return true;
        }
        j = j + 1;
    }
    false
}

/// How far the final count of the first target item exceeds its starting
/// count under `usage`, when the usage checks out and the item is relevant;
/// otherwise 0.
pub open spec fn craftable_amount(
    recipes: Seq<Recipe>,
    usage: Seq<(usize, i64)>,
    start: Seq<(ItemId, usize)>,
    target: Seq<(ItemId, usize)>,
    relevant: Seq<ItemId>,
) -> int {
    if usage_checks(recipes, usage, start, target, relevant, Seq::empty()) && relevant.contains(target[0].0) {
        clamp_count(final_count(start, recipes, usage, target[0].0) - count_of(start, target[0].0))
    } else {
        0
    }
}

/// The additional amount of the first target item that a solved usage
/// yields: how far its final count exceeds its starting count when the usage
/// checks out and the item is among the relevant ones, otherwise 0.
pub fn craftable_amount_from_usage(
    recipes: &Vec<Recipe>,
    usage: &Vec<(usize, i64)>,
    starting_items: &ItemSet,
    target: &ItemSet,
    relevant_item_ids: &Vec<ItemId>,
) -> (amount: usize)
    requires
        target@.len() > 0,
        no_duplicates(relevant_item_ids@),
    ensures
        amount == craftable_amount(recipes@, usage@, starting_items@, target@, relevant_item_ids@),
{
    let target_item_id = target.items[0].0;
    let no_disabled: Vec<usize> = Vec::new();
    let finals = match check_solution(recipes, usage, starting_items, target, relevant_item_ids, &no_disabled) {
        Some(f) => f,
        None => {
            return 0;
        },
    };
    let final_count_value = lookup_count(&finals, target_item_id);
    let start_count = starting_items.count(target_item_id);
    proof {
        lemma_key_index(finals@, target_item_id);
        if !relevant_item_ids@.contains(target_item_id) {
            assert(!has_key(finals@, target_item_id));
        }
    }
    if final_count_value <= start_count {
        0
    } else {
        final_count_value - start_count
    }
}

/// `amount` is what the largest-amount search reports: 0 without a producer
/// of the first target item, otherwise the amount of the maximising usage
/// of a ranking of the recipes (0 when the program gives no usage).
pub open spec fn reported_max(
    recipes: Seq<Recipe>,
    start: Seq<(ItemId, usize)>,
    target: Seq<(ItemId, usize)>,
    amount: int,
) -> bool {
    &&& !has_producer(recipes, target[0].0) ==> amount == 0
    &&& has_producer(recipes, target[0].0) ==> exists|pruned: Seq<Recipe>, relevant: Seq<ItemId>|
        #![trigger chosen_ranking(recipes, target, pruned, relevant)]
        chosen_ranking(recipes, target, pruned, relevant) && amount == match max_usage(
            pruned,
            relevant,
            start,
            target,
            target[0].0,
        ) {
            None => 0,
            Some(u) => craftable_amount(pruned, u, start, target, relevant),
        }
}

/// The largest additional amount of the first target item that can be
/// crafted: the recipes are pruned and ranked, every usage is capped at
/// `MAX_RECIPE_VALUE`, every relevant item must reach its target, and the
/// final count of the first target item is maximised. Returns how far that
/// count exceeds the starting one; 0 when no recipe produces the item or no
/// checked solution is found.
#[verifier::rlimit(60)]
pub fn compute_max_craftable_target_amount(recipes: Vec<Recipe>, starting_items: ItemSet, target: ItemSet) -> (amount: usize)
    requires
        target@.len() > 0,
    ensures
        !has_producer(recipes@, target@[0].0) ==> amount == 0,
        has_producer(recipes@, target@[0].0) ==> exists|pruned: Seq<Recipe>, relevant: Seq<ItemId>|
            #![trigger chosen_ranking(recipes@, target@, pruned, relevant)]
            chosen_ranking(recipes@, target@, pruned, relevant) && amount == match max_usage(
                pruned,
                relevant,
                starting_items@,
                target@,
                target@[0].0,
            ) {
                None => 0,
                Some(u) => craftable_amount(pruned, u, starting_items@, target@, relevant),
            },
        reported_max(recipes@, starting_items@, target@, amount as int),
        amount > 0 ==> exists|pruned: Seq<Recipe>, order: Seq<int>, keys: Seq<Seq<int>>, usage: Seq<(usize, i64)>|
            prioritized(recipes@, target@, order, keys, pruned) && usage_feasible(pruned, starting_items@, target@, usage)
                && amount == clamp_count(
                final_count(starting_items@, pruned, usage, target@[0].0) - count_of(starting_items@, target@[0].0),
            ),
{
    let target_item_id = target.items[0].0;
    if !produced_by_any(&recipes, target_item_id) {
        return 0;
    }
    let (pruned, relevant_item_ids) = prioritize_and_prune_relevant_recipes_and_items(&recipes, &target);
    let ghost producer = choose|j: int| 0 <= j < recipes@.len() && #[trigger] has_key(recipes@[j].output@, target_item_id);
    let ghost (order, keys) = choose|order: Seq<int>, keys: Seq<Seq<int>>| prioritized(recipes@, target@, order, keys, pruned@);
    proof {
        assert(has_key(target@, target_item_id)) by {
            assert(target@[0].0 == target_item_id);
        }
        assert(order.contains(producer));
        let i = choose|i: int| 0 <= i < order.len() && order[i] == producer;
        assert(crate::recipe_analysis::ranked_as(recipes@[order[i]], pruned@[i], i));
        assert(has_key(pruned@[i].output@, target_item_id));
        assert(has_key(pruned@[i]@.output, target_item_id));
        assert(mentioned_by(pruned@, target_item_id));
    }
    assert(chosen_ranking(recipes@, target@, pruned@, relevant_item_ids@));
    let mode = RecipeVariableMode::Capped(MAX_RECIPE_VALUE);
    let (bounds, positions) = build_recipe_variables(&pruned, &mode);
    let no_unconstrained: Vec<ItemId> = Vec::new();
    let rows = build_item_flow_expressions_and_constraints(
        &pruned,
        &positions,
        &relevant_item_ids,
        &starting_items,
        &target,
        &no_unconstrained,
    );
    let objective = negated_flow_terms_for(&pruned, &positions, target_item_id);
    let no_fixes: Vec<(LinearTerms, i32)> = Vec::new();
    proof {
        lemma_flow_within(pruned@, starting_items@, target_item_id);
        assert(rows_view(no_fixes@) =~= Seq::empty());
    }
    proof {
        assert(rows_view(rows@) + rows_view(no_fixes@) =~= rows_view(rows@));
    }
    let solved = match solve_program(&bounds, &rows, &no_fixes, objective) {
        Some(s) => s,
        None => {
            assert(max_usage(pruned@, relevant_item_ids@, starting_items@, target@, target@[0].0) is None);
            return 0;
        },
    };
    let usage = read_recipe_values(&pruned, &positions, &solved);
    assert(max_usage(pruned@, relevant_item_ids@, starting_items@, target@, target@[0].0) == Some(usage@));
    let amount = craftable_amount_from_usage(&pruned, &usage, &starting_items, &target, &relevant_item_ids);
    proof {
        if amount > 0 {
            assert(usage_feasible(pruned@, starting_items@, target@, usage@)) by {
                assert forall|x: ItemId| #[trigger] mentioned_by(pruned@, x) implies final_count(
                    starting_items@,
                    pruned@,
                    usage@,
                    x,
                ) >= count_of(target@, x) by {
                    assert(relevant_item_ids@.contains(x));
                }
            }
        }
    }
    amount
}

/// Recipe `j`, with identity `id`, produces the last item of the simple
/// backward route `(rs, ys)` from a target and needs an item on it: on that
/// branch it closes a loop.
pub open spec fn closes_loop(
    recipes: Seq<Recipe>,
    target: Seq<(ItemId, usize)>,
    id: usize,
    rs: Seq<int>,
    ys: Seq<ItemId>,
    j: int,
) -> bool {
    &&& item_route(recipes, target, rs, ys)
    &&& ys.no_duplicates()
    &&& 0 <= j < recipes.len()
    &&& recipes[j].unique_id == id
    &&& has_key(recipes[j].output@, ys.last())
    &&& exists|y: ItemId| ys.contains(y) && #[trigger] has_key(recipes[j].input@, y)
}

/// Some recipe with identity `id` closes a loop on a branch from a target.
pub open spec fn loop_closing(recipes: Seq<Recipe>, target: Seq<(ItemId, usize)>, id: usize) -> bool {
    exists|rs: Seq<int>, ys: Seq<ItemId>, j: int| #[trigger] closes_loop(recipes, target, id, rs, ys, j)
}

/// Walks the input branches below `item`, the last item of `path`: a recipe
/// producing it is loop-closing for each input already on the path, and
/// every other input is walked in turn.
fn walk_item_dependencies(
    recipes: &Vec<Recipe>,
    target: &ItemSet,
    item: ItemId,
    path: &mut Vec<ItemId>,
    Ghost(rs): Ghost<Seq<int>>,
    loop_closing_recipe_ids: &mut Vec<usize>,
)
    requires
        item_route(recipes@, target@, rs, old(path)@),
        old(path)@.no_duplicates(),
        old(path)@.last() == item,
        no_duplicates(old(loop_closing_recipe_ids)@),
        forall|id: usize| #[trigger] old(loop_closing_recipe_ids)@.contains(id) ==> loop_closing(recipes@, target@, id),
    ensures
        final(path)@ == old(path)@,
        no_duplicates(final(loop_closing_recipe_ids)@),
        forall|id: usize| #[trigger] final(loop_closing_recipe_ids)@.contains(id) ==> loop_closing(recipes@, target@, id),
        forall|id: usize| #[trigger] old(loop_closing_recipe_ids)@.contains(id) ==> final(loop_closing_recipe_ids)@.contains(id),
        forall|rse: Seq<int>, ext: Seq<ItemId>, j: int|
            #[trigger] closes_loop(recipes@, target@, recipes@[j].unique_id, rs + rse, old(path)@ + ext, j)
                ==> final(loop_closing_recipe_ids)@.contains(recipes@[j].unique_id),
    decreases universe(recipes@, target@).len() - old(path)@.len(),
{
    let ghost p0 = path@;
    let ghost f0 = loop_closing_recipe_ids@;
    let ghost u = universe(recipes@, target@);
    proof {
        lemma_universe(recipes@, target@);
        lemma_route_in_universe(recipes@, target@, rs, p0);
        lemma_distinct_within(p0, u);
    }
    proof {
        assert forall|rse: Seq<int>, ext: Seq<ItemId>, j: int|
            #[trigger] closes_loop(recipes@, target@, recipes@[j].unique_id, rs + rse, p0 + ext, j) && ext.len() > 0
            implies rse[0] >= 0 by {
            assert(item_route(recipes@, target@, rs + rse, p0 + ext));
            assert(route_step(recipes@, (rs + rse)[rs.len() as int], (p0 + ext)[rs.len() as int], (p0 + ext)[rs.len() + 1int]));
            assert((rs + rse)[rs.len() as int] == rse[0]);
        }
    }
    let mut jr: usize = 0;
    while jr < recipes.len()
        invariant
            jr <= recipes.len(),
            p0 == old(path)@,
            path@ == p0,
            p0.len() >= 1,
            p0.last() == item,
            item_route(recipes@, target@, rs, p0),
            p0.no_duplicates(),
            u == universe(recipes@, target@),
            u.finite(),
            p0.len() <= u.len(),
            forall|q: int| 0 <= q < p0.len() ==> u.contains(#[trigger] p0[q]),
            no_duplicates(loop_closing_recipe_ids@),
            forall|id: usize| #[trigger] loop_closing_recipe_ids@.contains(id) ==> loop_closing(recipes@, target@, id),
            forall|id: usize| #[trigger] f0.contains(id) ==> loop_closing_recipe_ids@.contains(id),
            forall|rse: Seq<int>, ext: Seq<ItemId>, j: int|
                #[trigger] closes_loop(recipes@, target@, recipes@[j].unique_id, rs + rse, p0 + ext, j) && (if ext.len() == 0 {
                    j < jr
                } else {
                    rse[0] < jr
                }) ==> loop_closing_recipe_ids@.contains(recipes@[j].unique_id),
        decreases recipes.len() - jr,
    {
        let recipe = &recipes[jr];
        if recipe.output.contains(item) {
            let mut k: usize = 0;
            while k < recipe.input.items.len()
                invariant
                    k <= recipe.input.items.len(),
                    recipe == &recipes@[jr as int],
                    jr < recipes.len(),
                    has_key(recipe.output@, item),
                    p0 == old(path)@,
                    path@ == p0,
                    p0.len() >= 1,
                    p0.last() == item,
                    item_route(recipes@, target@, rs, p0),
                    p0.no_duplicates(),
                    u == universe(recipes@, target@),
                    u.finite(),
                    p0.len() <= u.len(),
                    forall|q: int| 0 <= q < p0.len() ==> u.contains(#[trigger] p0[q]),
                    no_duplicates(loop_closing_recipe_ids@),
                    forall|id: usize| #[trigger] loop_closing_recipe_ids@.contains(id) ==> loop_closing(recipes@, target@, id),
                    forall|id: usize| #[trigger] f0.contains(id) ==> loop_closing_recipe_ids@.contains(id),
                    forall|rse: Seq<int>, ext: Seq<ItemId>, j: int|
                        #[trigger] closes_loop(recipes@, target@, recipes@[j].unique_id, rs + rse, p0 + ext, j) && (if ext.len() == 0 {
                            j < jr
                        } else {
                            rse[0] < jr
                        }) ==> loop_closing_recipe_ids@.contains(recipes@[j].unique_id),
                    (exists|q: int| 0 <= q < k && p0.contains(#[trigger] recipe.input@[q].0)) ==> loop_closing_recipe_ids@.contains(recipe.unique_id),
                    forall|rse: Seq<int>, ext: Seq<ItemId>, j: int|
                        #[trigger] closes_loop(recipes@, target@, recipes@[j].unique_id, rs + rse, p0 + ext, j) && ext.len() > 0
                            && rse[0] == jr && (exists|q: int| 0 <= q < k && #[trigger] recipe.input@[q].0 == ext[0])
                            ==> loop_closing_recipe_ids@.contains(recipes@[j].unique_id),
                decreases recipe.input.items.len() - k,
            {
                let input_item_id = recipe.input.items[k].0;
                let ghost before = loop_closing_recipe_ids@;
                if vec_has(path, input_item_id) {
                    push_unique(loop_closing_recipe_ids, recipe.unique_id);
                    proof {
                        assert(loop_closing(recipes@, target@, recipe.unique_id)) by {
                            assert(has_key(recipe.input@, input_item_id)) by {
                                assert(recipe.input@[k as int].0 == input_item_id);
                            }
                            assert(closes_loop(recipes@, target@, recipe.unique_id, rs, p0, jr as int));
                        }
                        lemma_grow_keeps(before, loop_closing_recipe_ids@, recipe.unique_id);
                    }
                } else {
                    proof {
                        assert(has_key(recipe.input@, input_item_id)) by {
                            assert(recipe.input@[k as int].0 == input_item_id);
                        }
                        assert(route_step(recipes@, jr as int, item, input_item_id));
                        lemma_route_extend_one(recipes@, target@, rs, p0, jr as int, input_item_id);
                        lemma_universe(recipes@, target@);
                        lemma_route_in_universe(recipes@, target@, rs.push(jr as int), p0.push(input_item_id));
                        lemma_distinct_within(p0.push(input_item_id), u);
                        assert(p0.push(input_item_id).len() <= u.len());
                    }
                    path.push(input_item_id);
                    assert(path@ == p0.push(input_item_id));
                    walk_item_dependencies(
                        recipes,
                        target,
                        input_item_id,
                        path,
                        Ghost(rs.push(jr as int)),
                        loop_closing_recipe_ids,
                    );
                    path.pop();
                    proof {
                        assert(path@ =~= p0);
                        assert forall|rse: Seq<int>, ext: Seq<ItemId>, j: int|
                            #[trigger] closes_loop(recipes@, target@, recipes@[j].unique_id, rs + rse, p0 + ext, j) && ext.len() > 0
                                && rse[0] == jr && ext[0] == input_item_id
                                implies loop_closing_recipe_ids@.contains(recipes@[j].unique_id) by {
                            assert(rs.push(jr as int) + rse.drop_first() =~= rs + rse) by {
                                assert(item_route(recipes@, target@, rs + rse, p0 + ext));
                            }
                            assert(p0.push(input_item_id) + ext.drop_first() =~= p0 + ext);
                            assert(closes_loop(
                                recipes@,
                                target@,
                                recipes@[j].unique_id,
                                rs.push(jr as int) + rse.drop_first(),
                                p0.push(input_item_id) + ext.drop_first(),
                                j,
                            ));
                        }
                    }
                }
                proof {
                    assert forall|rse: Seq<int>, ext: Seq<ItemId>, j: int|
                        #[trigger] closes_loop(recipes@, target@, recipes@[j].unique_id, rs + rse, p0 + ext, j) && ext.len() > 0
                            && rse[0] == jr && (exists|q: int| 0 <= q < k + 1 && #[trigger] recipe.input@[q].0 == ext[0])
                            implies loop_closing_recipe_ids@.contains(recipes@[j].unique_id) by {
                        let q = choose|q: int| 0 <= q < k + 1 && #[trigger] recipe.input@[q].0 == ext[0];
                        if q < k {
                            assert(before.contains(recipes@[j].unique_id));
                        } else {
                            assert(ext[0] == input_item_id);
                            if p0.contains(input_item_id) {
                                assert((p0 + ext)[p0.len() as int] == ext[0]);
                                let w = choose|w: int| 0 <= w < p0.len() && p0[w] == input_item_id;
                                assert((p0 + ext)[w] == ext[0]);
                            }
                        }
                    }
                    if exists|q: int| 0 <= q < k + 1 && p0.contains(#[trigger] recipe.input@[q].0) {
                        let q = choose|q: int| 0 <= q < k + 1 && p0.contains(#[trigger] recipe.input@[q].0);
                        if q < k {
                            assert(before.contains(recipe.unique_id));
                        }
                    }
                }
                k = k + 1;
            }
            proof {
                assert forall|rse: Seq<int>, ext: Seq<ItemId>, j: int|
                    #[trigger] closes_loop(recipes@, target@, recipes@[j].unique_id, rs + rse, p0 + ext, j) && (if ext.len() == 0 {
                        j < jr + 1
                    } else {
                        rse[0] < jr + 1
                    }) implies loop_closing_recipe_ids@.contains(recipes@[j].unique_id) by {
                    if ext.len() == 0 && j == jr {
                        assert(p0 + ext =~= p0);
                        let y = choose|y: ItemId| (p0 + ext).contains(y) && #[trigger] has_key(recipes@[j].input@, y);
                        let q = choose|q: int| 0 <= q < recipe.input@.len() && #[trigger] recipe.input@[q].0 == y;
                        assert(p0.contains(recipe.input@[q].0));
                    } else if ext.len() > 0 && rse[0] == jr {
                        assert(item_route(recipes@, target@, rs + rse, p0 + ext));
                        assert(route_step(recipes@, (rs + rse)[rs.len() as int], (p0 + ext)[rs.len() as int], (p0 + ext)[rs.len() + 1int]));
                        assert((p0 + ext)[rs.len() + 1int] == ext[0]);
                        let q = choose|q: int| 0 <= q < recipe.input@.len() && #[trigger] recipe.input@[q].0 == ext[0];
                        assert(0 <= q < recipe.input@.len() && recipe.input@[q].0 == ext[0]);
                    }
                }
            }
        } else {
            proof {
                assert forall|rse: Seq<int>, ext: Seq<ItemId>, j: int|
                    #[trigger] closes_loop(recipes@, target@, recipes@[j].unique_id, rs + rse, p0 + ext, j) && (if ext.len() == 0 {
                        j < jr + 1
                    } else {
                        rse[0] < jr + 1
                    }) implies loop_closing_recipe_ids@.contains(recipes@[j].unique_id) by {
                    if ext.len() == 0 && j == jr {
                        assert(p0 + ext =~= p0);
                    } else if ext.len() > 0 && rse[0] == jr {
                        assert(item_route(recipes@, target@, rs + rse, p0 + ext));
                        assert(route_step(recipes@, (rs + rse)[rs.len() as int], (p0 + ext)[rs.len() as int], (p0 + ext)[rs.len() + 1int]));
                        assert((p0 + ext)[rs.len() as int] == item);
                    }
                }
            }
        }
        jr = jr + 1;
    }
    proof {
        assert forall|rse: Seq<int>, ext: Seq<ItemId>, j: int|
            #[trigger] closes_loop(recipes@, target@, recipes@[j].unique_id, rs + rse, p0 + ext, j)
            implies loop_closing_recipe_ids@.contains(recipes@[j].unique_id) by {
            if ext.len() > 0 {
                assert(item_route(recipes@, target@, rs + rse, p0 + ext));
                assert(route_step(recipes@, (rs + rse)[rs.len() as int], (p0 + ext)[rs.len() as int], (p0 + ext)[rs.len() + 1int]));
                assert((rs + rse)[rs.len() as int] == rse[0]);
            }
        }
    }
}

/// Collects the identities of the recipes that close a loop on some input
/// branch below a target item: walking backward from each target item, a
/// recipe producing the current item is loop-closing when it needs an item
/// already on the branch. Leaving them out reveals the base items that a
/// fully producible loop would otherwise hide.
fn collect_loop_closing_recipe_ids_on_target_branches(recipes: &Vec<Recipe>, target: &ItemSet) -> (ids: Vec<usize>)
    ensures
        no_duplicates(ids@),
        forall|id: usize| #[trigger] ids@.contains(id) <==> loop_closing(recipes@, target@, id),
{
    let mut loop_closing_recipe_ids: Vec<usize> = Vec::new();
    let mut t: usize = 0;
    while t < target.items.len()
        invariant
            t <= target.items.len(),
            no_duplicates(loop_closing_recipe_ids@),
            forall|id: usize| #[trigger] loop_closing_recipe_ids@.contains(id) ==> loop_closing(recipes@, target@, id),
            forall|rs: Seq<int>, ys: Seq<ItemId>, j: int|
                #[trigger] closes_loop(recipes@, target@, recipes@[j].unique_id, rs, ys, j) && (exists|q: int|
                    0 <= q < t && #[trigger] target@[q].0 == ys[0]) ==> loop_closing_recipe_ids@.contains(recipes@[j].unique_id),
        decreases target.items.len() - t,
    {
        let target_item_id = target.items[t].0;
        let mut path_items: Vec<ItemId> = Vec::new();
        path_items.push(target_item_id);
        proof {
            assert(has_key(target@, target_item_id)) by {
                assert(target@[t as int].0 == target_item_id);
            }
            assert(item_route(recipes@, target@, Seq::<int>::empty(), path_items@));
        }
        let ghost before = loop_closing_recipe_ids@;
        let ghost start_path = path_items@;
        walk_item_dependencies(
            recipes,
            target,
            target_item_id,
            &mut path_items,
            Ghost(Seq::empty()),
            &mut loop_closing_recipe_ids,
        );
        proof {
            assert forall|rs: Seq<int>, ys: Seq<ItemId>, j: int|
                #[trigger] closes_loop(recipes@, target@, recipes@[j].unique_id, rs, ys, j) && (exists|q: int|
                    0 <= q < t + 1 && #[trigger] target@[q].0 == ys[0]) implies loop_closing_recipe_ids@.contains(
                recipes@[j].unique_id,
            ) by {
                let q = choose|q: int| 0 <= q < t + 1 && #[trigger] target@[q].0 == ys[0];
                if q < t {
                    assert(before.contains(recipes@[j].unique_id));
                } else {
                    assert(Seq::<int>::empty() + rs =~= rs);
                    assert(start_path + ys.drop_first() =~= ys);
                    assert(closes_loop(
                        recipes@,
                        target@,
                        recipes@[j].unique_id,
                        Seq::<int>::empty() + rs,
                        start_path + ys.drop_first(),
                        j,
                    ));
                }
            }
        }
        t = t + 1;
    }
    proof {
        assert forall|id: usize| loop_closing(recipes@, target@, id) implies #[trigger] loop_closing_recipe_ids@.contains(id) by {
            let (rs, ys, j) = choose|rs: Seq<int>, ys: Seq<ItemId>, j: int| #[trigger] closes_loop(recipes@, target@, id, rs, ys, j);
            assert(closes_loop(recipes@, target@, recipes@[j].unique_id, rs, ys, j));
            let q = choose|q: int| 0 <= q < target@.len() && #[trigger] target@[q].0 == ys[0];
        }
    }
    loop_closing_recipe_ids
}

/// `a` has the identity, needs, products and base priority of `b`.
pub open spec fn same_recipe_content(a: Recipe, b: Recipe) -> bool {
    &&& a.unique_id == b.unique_id
    &&& a.input@ == b.input@
    &&& a.output@ == b.output@
    &&& a.base_priority == b.base_priority
}

/// `r` is, up to its effective priority, one of the recipes.
pub open spec fn drawn_from(recipes: Seq<Recipe>, r: Recipe) -> bool {
    exists|j: int| 0 <= j < recipes.len() && same_recipe_content(r, #[trigger] recipes[j])
}

/// The items `required` are what `start` lacks when the recipes `used` run as
/// often as `usage` says: an item some used recipe produces needs nothing and
/// reaches its target; any other item needs exactly what keeps it from its
/// target.
pub open spec fn deficits(
    start: Seq<(ItemId, usize)>,
    target: Seq<(ItemId, usize)>,
    used: Seq<Recipe>,
    usage: Seq<(usize, i64)>,
    required: Seq<(ItemId, usize)>,
) -> bool {
    forall|x: ItemId| #[trigger] count_of(required, x) == if producible(used, x) {
        0
    } else {
        clamp_count(count_of(target, x) - final_count(start, used, usage, x))
    } && (producible(used, x) ==> final_count(start, used, usage, x) >= count_of(target, x))
}

/// An item no recipe mentions is not changed by them.
proof fn lemma_flow_unmentioned(recipes: Seq<Recipe>, usage: Seq<(usize, i64)>, x: ItemId)
    requires
        !mentioned_by(recipes, x),
    ensures
        flow(recipes, usage, x) == 0,
    decreases recipes.len(),
{
    if recipes.len() > 0 {
        let rest = recipes.drop_last();
        assert(!mentioned_by(rest, x)) by {
            if mentioned_by(rest, x) {
                let j = choose|j: int| 0 <= j < rest.len() && (has_key(#[trigger] rest[j]@.output, x) || has_key(rest[j]@.input, x));
                assert(recipes[j] == rest[j]);
            }
        }
        lemma_flow_unmentioned(rest, usage, x);
        let last = recipes.last();
        assert(!has_key(last@.output, x) && !has_key(last@.input, x)) by {
            if has_key(last@.output, x) || has_key(last@.input, x) {
                assert(mentioned_by(recipes, x)) by {
                    assert(recipes[recipes.len() - 1] == last);
                }
            }
        }
        lemma_key_index(last@.output, x);
        lemma_key_index(last@.input, x);
        assert(count_of(last@.output, x) == 0);
        assert(count_of(last@.input, x) == 0);
        assert(net_change(last@, x) == 0);
        let v = value_of(usage, last.unique_id);
        assert(net_change(last@, x) * v == 0);
    }
}

/// A relaxed solved usage checks out: no count is negative, every relevant
/// item's final count is computed within `i128`, and every relevant item
/// outside `no_recipe` reaches its target.
pub open spec fn relaxed_usage_checks(
    recipes: Seq<Recipe>,
    usage: Seq<(usize, i64)>,
    start: Seq<(ItemId, usize)>,
    target: Seq<(ItemId, usize)>,
    relevant: Seq<ItemId>,
    no_recipe: Seq<ItemId>,
) -> bool {
    &&& forall|k: int| 0 <= k < usage.len() ==> (#[trigger] usage[k]).1 >= 0
    &&& forall|x: ItemId| #[trigger] relevant.contains(x) ==> count_fits_i128(start, recipes, usage, x) && (!no_recipe.contains(x)
        ==> final_count(start, recipes, usage, x) >= count_of(target, x))
}

/// Computes what each relevant item lacks after a relaxed solve: listed items
/// (the ones no recipe produces) get the difference between target and final
/// count when positive; every other relevant item must reach its target.
/// `None` when a usage is negative, a count leaves the checked range, or an
/// item misses its target.
pub fn collect_deficits(
    recipes: &Vec<Recipe>,
    usage: &Vec<(usize, i64)>,
    starting_items: &ItemSet,
    target: &ItemSet,
    relevant_item_ids: &Vec<ItemId>,
    items_with_no_recipes: &Vec<ItemId>,
) -> (required: Option<ItemSet>)
    requires
        no_duplicates(relevant_item_ids@),
    ensures
        required is Some <==> relaxed_usage_checks(
            recipes@,
            usage@,
            starting_items@,
            target@,
            relevant_item_ids@,
            items_with_no_recipes@,
        ),
        required matches Some(req) ==> {
            &&& forall|k: int| 0 <= k < usage@.len() ==> (#[trigger] usage@[k]).1 >= 0
            &&& keys_distinct(req@)
            &&& forall|k: int| 0 <= k < req@.len() ==> (#[trigger] req@[k]).1 > 0
            &&& forall|x: ItemId| !relevant_item_ids@.contains(x) ==> #[trigger] count_of(req@, x) == 0
            &&& forall|x: ItemId| #[trigger] relevant_item_ids@.contains(x) ==> if items_with_no_recipes@.contains(x) {
                count_of(req@, x) == clamp_count(count_of(target@, x) - final_count(starting_items@, recipes@, usage@, x))
            } else {
                count_of(req@, x) == 0 && final_count(starting_items@, recipes@, usage@, x) >= count_of(target@, x)
            }
        },
{
    let mut k: usize = 0;
    while k < usage.len()
        invariant
            k <= usage.len(),
            forall|q: int| 0 <= q < k ==> (#[trigger] usage@[q]).1 >= 0,
        decreases usage.len() - k,
    {
        if usage[k].1 < 0 {
            proof {
                assert(!relaxed_usage_checks(
                    recipes@,
                    usage@,
                    starting_items@,
                    target@,
                    relevant_item_ids@,
                    items_with_no_recipes@,
                )) by {
                    assert(usage@[k as int].1 < 0);
                }
            }
            return None;
        }
        k = k + 1;
    }
    let mut required = ItemSet { items: Vec::new() };
    let mut i: usize = 0;
    while i < relevant_item_ids.len()
        invariant
            i <= relevant_item_ids.len(),
            no_duplicates(relevant_item_ids@),
            keys_distinct(required@),
            forall|q: int| 0 <= q < required@.len() ==> (#[trigger] required@[q]).1 > 0,
            forall|x: ItemId| !relevant_item_ids@.take(i as int).contains(x) ==> #[trigger] count_of(required@, x) == 0,
            forall|x: ItemId| #[trigger] relevant_item_ids@.take(i as int).contains(x) ==> if items_with_no_recipes@.contains(x) {
                count_of(required@, x) == clamp_count(count_of(target@, x) - final_count(starting_items@, recipes@, usage@, x))
            } else {
                count_of(required@, x) == 0 && final_count(starting_items@, recipes@, usage@, x) >= count_of(target@, x)
            },
            forall|k: int| 0 <= k < usage@.len() ==> (#[trigger] usage@[k]).1 >= 0,
            forall|q: int| 0 <= q < i ==> count_fits_i128(starting_items@, recipes@, usage@, #[trigger] relevant_item_ids@[q]),
        decreases relevant_item_ids.len() - i,
    {
        let item = relevant_item_ids[i];
        let final_value = match final_count_of(recipes, usage, starting_items, item) {
            Some(v) => v,
            None => {
                proof {
                    assert(!relaxed_usage_checks(
                        recipes@,
                        usage@,
                        starting_items@,
                        target@,
                        relevant_item_ids@,
                        items_with_no_recipes@,
                    )) by {
                        assert(relevant_item_ids@.contains(item));
                    }
                }
                return None;
            },
        };
        let target_value = target.count(item) as i128;
        let ghost before = required@;
        proof {
            assert(!relevant_item_ids@.take(i as int).contains(item)) by {
                if relevant_item_ids@.take(i as int).contains(item) {
                    let q = choose|q: int| 0 <= q < i && #[trigger] relevant_item_ids@.take(i as int)[q] == item;
                    assert(relevant_item_ids@[q] == relevant_item_ids@[i as int]);
                }
            }
            assert(count_of(before, item) == 0);
        }
        let no_recipe = vec_has(items_with_no_recipes, item);
        if no_recipe {
            if final_value < target_value {
                let needed: usize = if final_value < target_value - usize::MAX as i128 {
                    usize::MAX
                } else {
                    (target_value - final_value) as usize
                };
                required.add_count(item, needed);
                proof {
                    lemma_key_index(before, item);
                    assert(required@ == before.push((item, needed)));
                    assert forall|q: int| 0 <= q < required@.len() implies (#[trigger] required@[q]).1 > 0 by {
                        if q < before.len() {
                            assert(required@[q] == before[q]);
                        }
                    }
                    assert(keys_distinct(required@)) by {
                        assert forall|a: int, b: int| 0 <= a < b < required@.len() implies required@[a].0 != required@[b].0 by {
                            if b == before.len() {
                                assert(before[a].0 != item);
                            }
                        }
                    }
                }
            }
        } else {
            if final_value < target_value {
                proof {
                    assert(!relaxed_usage_checks(
                        recipes@,
                        usage@,
                        starting_items@,
                        target@,
                        relevant_item_ids@,
                        items_with_no_recipes@,
                    )) by {
                        assert(relevant_item_ids@.contains(item));
                    }
                }
                return None;
            }
        }
        proof {
            assert forall|x: ItemId| x != item implies #[trigger] count_of(required@, x) == count_of(before, x) by {
                crate::keyed_entries::lemma_add_entry(before, item, 0, x);
                lemma_key_index(before, x);
                lemma_key_index(required@, x);
                if required@ != before {
                    crate::keyed_entries::lemma_key_index_push(before, required@.last(), x);
                    assert(required@ == before.push(required@.last()));
                }
            }
            assert forall|x: ItemId| #[trigger] relevant_item_ids@.take(i + 1).contains(x) <==> (relevant_item_ids@.take(
                i as int,
            ).contains(x) || x == item) by {
                if relevant_item_ids@.take(i + 1).contains(x) {
                    let q = choose|q: int| 0 <= q < i + 1 && #[trigger] relevant_item_ids@.take(i + 1)[q] == x;
                    if q < i {
                        assert(relevant_item_ids@.take(i as int)[q] == x);
                    }
                }
                if relevant_item_ids@.take(i as int).contains(x) {
                    let q = choose|q: int| 0 <= q < i && #[trigger] relevant_item_ids@.take(i as int)[q] == x;
                    assert(relevant_item_ids@.take(i + 1)[q] == x);
                }
                if x == item {
                    assert(relevant_item_ids@.take(i + 1)[i as int] == x);
                }
            }
            if no_recipe && final_value < target_value {
                lemma_key_index(required@, item);
                crate::keyed_entries::lemma_key_index_push(before, (item, required@.last().1), item);
            } else {
                assert(required@ == before);
            }
        }
        i = i + 1;
    }
    assert(relevant_item_ids@.take(relevant_item_ids@.len() as int) =~= relevant_item_ids@);
    proof {
        assert forall|x: ItemId| #[trigger] relevant_item_ids@.contains(x) implies count_fits_i128(
            starting_items@,
            recipes@,
            usage@,
            x,
        ) && (!items_with_no_recipes@.contains(x) ==> final_count(starting_items@, recipes@, usage@, x) >= count_of(
            target@,
            x,
        )) by {
            let q = choose|q: int| 0 <= q < relevant_item_ids@.len() && relevant_item_ids@[q] == x;
            assert(count_fits_i128(starting_items@, recipes@, usage@, relevant_item_ids@[q]));
        }
    }
    Some(required)
}

/// The recipes whose identity is not listed, in order.
pub(crate) fn without_ids(recipes: &Vec<Recipe>, ids: &Vec<usize>) -> (kept: Vec<Recipe>)
    ensures
        kept@.len() <= recipes@.len(),
        (exists|j: int| 0 <= j < recipes.len() && ids@.contains(#[trigger] recipes@[j].unique_id)) ==> kept@.len() < recipes@.len(),
        forall|k: int| 0 <= k < kept@.len() ==> copy_of_one(recipes@, #[trigger] kept@[k]),
        kept@.map_values(|r: Recipe| r@) == recipes@.map_values(|r: Recipe| r@).filter(
            |v: RecipeView| !ids@.contains(v.unique_id),
        ),
{
    let mut kept: Vec<Recipe> = Vec::new();
    let mut j: usize = 0;
    while j < recipes.len()
        invariant
            j <= recipes.len(),
            kept@.len() <= j,
            (exists|q: int| 0 <= q < j && ids@.contains(#[trigger] recipes@[q].unique_id)) ==> kept@.len() < j,
            forall|k: int| 0 <= k < kept@.len() ==> copy_of_one(recipes@, #[trigger] kept@[k]),
            kept@.map_values(|r: Recipe| r@) == recipes@.take(j as int).map_values(|r: Recipe| r@).filter(
                |v: RecipeView| !ids@.contains(v.unique_id),
            ),
        decreases recipes.len() - j,
    {
        let ghost before = kept@;
        if !vec_has(ids, recipes[j].unique_id) {
            kept.push(recipes[j].clone());
            proof {
                assert forall|k: int| 0 <= k < kept@.len() implies copy_of_one(recipes@, #[trigger] kept@[k]) by {
                    if k < before.len() {
                        assert(kept@[k] == before[k]);
                    } else {
                        assert(kept@[k]@ == recipes@[j as int]@);
                    }
                }
            }
        }
        proof {
            if exists|q: int| 0 <= q < j + 1 && ids@.contains(#[trigger] recipes@[q].unique_id) {
                let q = choose|q: int| 0 <= q < j + 1 && ids@.contains(#[trigger] recipes@[q].unique_id);
                if q < j {
                    assert(before.len() < j);
                }
            }
            let t = recipes@.take(j + 1).map_values(|r: Recipe| r@);
            assert(t.drop_last() =~= recipes@.take(j as int).map_values(|r: Recipe| r@));
            assert(t.last() == recipes@[j as int]@);
            reveal(Seq::filter);
            assert(kept@.map_values(|r: Recipe| r@) =~= t.filter(|v: RecipeView| !ids@.contains(v.unique_id)));
        }
        j = j + 1;
    }
    assert(recipes@.take(recipes@.len() as int) =~= recipes@);
    kept
}

/// A ranked copy of a recipe keeps its content.
proof fn lemma_pruned_drawn(
    recipes: Seq<Recipe>,
    target: Seq<(ItemId, usize)>,
    order: Seq<int>,
    keys: Seq<Seq<int>>,
    pruned: Seq<Recipe>,
)
    requires
        prioritized(recipes, target, order, keys, pruned),
    ensures
        forall|k: int| 0 <= k < pruned.len() ==> drawn_from(recipes, #[trigger] pruned[k]),
        pruned.len() <= recipes.len(),
{
    assert forall|k: int| 0 <= k < pruned.len() implies drawn_from(recipes, #[trigger] pruned[k]) by {
        assert(crate::recipe_analysis::ranked_as(recipes[order[k]], pruned[k], k));
        assert(same_recipe_content(pruned[k], recipes[order[k]]));
    }
    let u = vstd::set_lib::set_int_range(0, recipes.len() as int);
    vstd::set_lib::lemma_int_range(0, recipes.len() as int);
    assert forall|t: int| 0 <= t < order.len() implies u.contains(#[trigger] order[t]) by {}
    assert(order.no_duplicates()) by {
        assert forall|a: int, b: int| 0 <= a < order.len() && 0 <= b < order.len() && a != b implies order[a] != order[b] by {
            if a < b {
                assert(order[a] != order[b]);
            } else {
                assert(order[b] != order[a]);
            }
        }
    }
    lemma_distinct_within(order, u);
}

/// The selected recipes keep the content of recipes they were selected from.
proof fn lemma_selected_drawn(pruned: Seq<Recipe>, selected: Seq<Recipe>, order: Seq<usize>)
    requires
        is_priority_order(pruned, order),
        selected.map_values(|r: Recipe| r@) == greedy_selection(pruned, order),
    ensures
        forall|k: int| 0 <= k < selected.len() ==> drawn_from(pruned, #[trigger] selected[k]),
{
    let all = order.map_values(|j: usize| pruned[j as int]@);
    let pred = |r: crate::crafting_domain::RecipeView| crate::recipe_analysis::pioneer_id(pruned, order, r.unique_id);
    assert forall|k: int| 0 <= k < selected.len() implies drawn_from(pruned, #[trigger] selected[k]) by {
        let v = selected.map_values(|r: Recipe| r@)[k];
        assert(v == selected[k]@);
        assert(all.filter(pred).contains(v)) by {
            assert(all.filter(pred)[k] == v);
        }
        all.lemma_filter_contains_rev(pred, v);
        let m = choose|m: int| 0 <= m < all.len() && all[m] == v;
        assert(all[m] == pruned[order[m] as int]@);
        assert(same_recipe_content(selected[k], pruned[order[m] as int]));
    }
}

/// Dropping what was pushed gives back the sequence.
proof fn lemma_push_drop<A>(s: Seq<A>, x: A)
    ensures
        s.push(x).drop_last() == s,
{
    assert(s.push(x).drop_last() =~= s);
}

/// Growing a list of distinct ids keeps what it held.
proof fn lemma_grow_keeps(before: Seq<usize>, after: Seq<usize>, x: usize)
    requires
        forall|y: usize| #[trigger] after.contains(y) <==> (before.contains(y) || y == x),
    ensures
        forall|y: usize| #[trigger] before.contains(y) ==> after.contains(y),
        after.contains(x),
{
}

/// Extending a simple route by one recipe step to an item not on it.
proof fn lemma_route_extend_one(
    recipes: Seq<Recipe>,
    target: Seq<(ItemId, usize)>,
    rs: Seq<int>,
    ys: Seq<ItemId>,
    j: int,
    y: ItemId,
)
    requires
        item_route(recipes, target, rs, ys),
        ys.no_duplicates(),
        route_step(recipes, j, ys.last(), y),
        !ys.contains(y),
    ensures
        item_route(recipes, target, rs.push(j), ys.push(y)),
        ys.push(y).no_duplicates(),
        ys.push(y).last() == y,
{
    let rs2 = rs.push(j);
    let ys2 = ys.push(y);
    assert forall|k: int| 0 <= k < rs2.len() implies route_step(recipes, #[trigger] rs2[k], ys2[k], ys2[k + 1]) by {
        if k < rs.len() {
            assert(rs2[k] == rs[k] && ys2[k] == ys[k] && ys2[k + 1] == ys[k + 1]);
        }
    }
    assert forall|a: int, b: int| 0 <= a < ys2.len() && 0 <= b < ys2.len() && a != b implies ys2[a] != ys2[b] by {
        if a == ys.len() as int {
            assert(ys.contains(ys[b]));
        } else if b == ys.len() as int {
            assert(ys.contains(ys[a]));
        }
    }
}

/// The items of a backward route lie in the universe.
proof fn lemma_route_in_universe(recipes: Seq<Recipe>, target: Seq<(ItemId, usize)>, rs: Seq<int>, ys: Seq<ItemId>)
    requires
        item_route(recipes, target, rs, ys),
    ensures
        forall|q: int| 0 <= q < ys.len() ==> universe(recipes, target).contains(#[trigger] ys[q]),
{
    lemma_universe(recipes, target);
    assert forall|q: int| 0 <= q < ys.len() implies universe(recipes, target).contains(#[trigger] ys[q]) by {
        if q > 0 {
            assert(route_step(recipes, rs[q - 1], ys[q - 1], ys[q]));
            assert(has_key(recipes[rs[q - 1]].input@, ys[q]));
        }
    }
}

/// One round of the base-item analysis: `pruned` ranks the recipes relevant
/// to the target and `sel` keeps its top-priority producers.
pub open spec fn selection_round(
    recipes: Seq<Recipe>,
    target: Seq<(ItemId, usize)>,
    pruned: Seq<Recipe>,
    sel: Seq<Recipe>,
) -> bool {
    &&& exists|order: Seq<int>, keys: Seq<Seq<int>>| prioritized(recipes, target, order, keys, pruned)
    &&& exists|o: Seq<usize>| is_priority_order(pruned, o) && sel.map_values(|r: Recipe| r@) == greedy_selection(pruned, o)
}

/// A round ends the analysis: an item of the target or of the ranked or
/// selected recipes has no selected producer, or no selected recipe closes a
/// loop on a branch from the target.
pub open spec fn round_settles(target: Seq<(ItemId, usize)>, pruned: Seq<Recipe>, sel: Seq<Recipe>) -> bool {
    ||| exists|x: ItemId|
        (has_key(target, x) || mentioned_by(sel, x) || mentioned_by(pruned, x)) && !#[trigger] producible(sel, x)
    ||| forall|id: usize| !#[trigger] loop_closing(sel, target, id)
}

/// The rounds of the base-item analysis: the first works on `recipes`; each
/// ranks and selects; a round that does not settle is followed by one on its
/// selection without the loop-closing recipes; the last round settles.
pub open spec fn analysis_rounds(
    recipes: Seq<Recipe>,
    target: Seq<(ItemId, usize)>,
    rounds: Seq<Seq<Recipe>>,
    pruneds: Seq<Seq<Recipe>>,
    sels: Seq<Seq<Recipe>>,
) -> bool {
    &&& rounds.len() >= 1
    &&& pruneds.len() == rounds.len()
    &&& sels.len() == rounds.len()
    &&& rounds[0] == recipes
    &&& forall|i: int| 0 <= i < rounds.len() ==> #[trigger] selection_round(rounds[i], target, pruneds[i], sels[i])
    &&& forall|i: int|
        0 <= i < rounds.len() - 1 ==> !#[trigger] round_settles(target, pruneds[i], sels[i]) && rounds[i + 1].map_values(
            |r: Recipe| r@,
        ) == sels[i].map_values(|r: Recipe| r@).filter(|v: RecipeView| !loop_closing(sels[i], target, v.unique_id))
    &&& round_settles(target, pruneds.last(), sels.last())
}

/// `relevant` lists, without repeats, the target items and the items the
/// ranked or selected recipes need or produce.
pub open spec fn round_relevant(
    target: Seq<(ItemId, usize)>,
    pruned: Seq<Recipe>,
    sel: Seq<Recipe>,
    relevant: Seq<ItemId>,
) -> bool {
    &&& no_duplicates(relevant)
    &&& forall|x: ItemId| #[trigger] relevant.contains(x) <==> (has_key(target, x) || mentioned_by(sel, x) || mentioned_by(
        pruned,
        x,
    ))
}

/// The relevant items no selected recipe produces.
pub open spec fn no_recipe_items(sel: Seq<Recipe>, relevant: Seq<ItemId>) -> Seq<ItemId> {
    relevant.filter(|y: ItemId| !producible(sel, y))
}

/// `required` is what the analysis reports: in the last round, the
/// selection (whose recipes are drawn from `recipes`) is run as the relaxed
/// program's rank-order least usage (no usage when the selection is empty),
/// and `required` is exactly what the items lack.
pub open spec fn reports_deficits(
    recipes: Seq<Recipe>,
    start: Seq<(ItemId, usize)>,
    target: Seq<(ItemId, usize)>,
    required: Seq<(ItemId, usize)>,
) -> bool {
    exists|
        rounds: Seq<Seq<Recipe>>,
        pruneds: Seq<Seq<Recipe>>,
        sels: Seq<Seq<Recipe>>,
        relevant: Seq<ItemId>,
        usage: Seq<(usize, i64)>,
    |
        #![trigger analysis_rounds(recipes, target, rounds, pruneds, sels), round_relevant(target, pruneds.last(), sels.last(), relevant), deficits(start, target, sels.last(), usage, required)]
        analysis_rounds(recipes, target, rounds, pruneds, sels) && round_relevant(
            target,
            pruneds.last(),
            sels.last(),
            relevant,
        ) && (forall|k: int| 0 <= k < sels.last().len() ==> drawn_from(recipes, #[trigger] sels.last()[k])) && (
        forall|k: int| 0 <= k < usage.len() ==> (#[trigger] usage[k]).1 >= 0) && (if sels.last().len() == 0 {
            usage == Seq::<(usize, i64)>::empty()
        } else {
            relaxed_usage(sels.last(), relevant, start, target, no_recipe_items(sels.last(), relevant)) == Some(usage)
        }) && deficits(start, target, sels.last(), usage, required)
}

/// The analysis gives no report: in the last round the selection is not
/// empty and the relaxed program gives no usage, or one that does not check out.
pub open spec fn analysis_fails(recipes: Seq<Recipe>, start: Seq<(ItemId, usize)>, target: Seq<(ItemId, usize)>) -> bool {
    exists|rounds: Seq<Seq<Recipe>>, pruneds: Seq<Seq<Recipe>>, sels: Seq<Seq<Recipe>>, relevant: Seq<ItemId>|
        #![trigger analysis_rounds(recipes, target, rounds, pruneds, sels), round_relevant(target, pruneds.last(), sels.last(), relevant)]
        analysis_rounds(recipes, target, rounds, pruneds, sels) && round_relevant(
            target,
            pruneds.last(),
            sels.last(),
            relevant,
        ) && sels.last().len() > 0 && match relaxed_usage(
            sels.last(),
            relevant,
            start,
            target,
            no_recipe_items(sels.last(), relevant),
        ) {
            None => true,
            Some(u) => !relaxed_usage_checks(sels.last(), u, start, target, relevant, no_recipe_items(sels.last(), relevant)),
        }
}

/// A round that does not settle, followed by the analysis of its selection
/// without the loop-closing recipes, is an analysis of the whole.
#[verifier::spinoff_prover]
proof fn lemma_extend_rounds(
    recipes: Seq<Recipe>,
    start: Seq<(ItemId, usize)>,
    target: Seq<(ItemId, usize)>,
    pruned: Seq<Recipe>,
    selected: Seq<Recipe>,
    relevant: Seq<ItemId>,
    no_recipe: Seq<ItemId>,
    ids: Seq<usize>,
    reduced: Seq<Recipe>,
    rounds: Seq<Seq<Recipe>>,
    pruneds: Seq<Seq<Recipe>>,
    sels: Seq<Seq<Recipe>>,
)
    requires
        selection_round(recipes, target, pruned, selected),
        forall|k: int| 0 <= k < selected.len() ==> drawn_from(recipes, #[trigger] selected[k]),
        no_recipe == relevant.filter(|y: ItemId| !producible(selected, y)),
        no_recipe.len() == 0,
        forall|x: ItemId|
            (has_key(target, x) || mentioned_by(selected, x) || mentioned_by(pruned, x)) ==> #[trigger] relevant.contains(x),
        ids.len() > 0,
        forall|id: usize| #[trigger] ids.contains(id) <==> loop_closing(selected, target, id),
        reduced.map_values(|r: Recipe| r@) == selected.map_values(|r: Recipe| r@).filter(
            |v: RecipeView| !ids.contains(v.unique_id),
        ),
        forall|k: int| 0 <= k < reduced.len() ==> copy_of_one(selected, #[trigger] reduced[k]),
        analysis_rounds(reduced, target, rounds, pruneds, sels),
    ensures
        analysis_rounds(recipes, target, seq![recipes] + rounds, seq![pruned] + pruneds, seq![selected] + sels),
        (seq![pruned] + pruneds).last() == pruneds.last(),
        (seq![selected] + sels).last() == sels.last(),
        (forall|k: int| 0 <= k < sels.last().len() ==> drawn_from(reduced, #[trigger] sels.last()[k])) ==> (forall|k: int|
            0 <= k < sels.last().len() ==> drawn_from(recipes, #[trigger] sels.last()[k])),
{
    let rounds2 = seq![recipes] + rounds;
    let pruneds2 = seq![pruned] + pruneds;
    let sels2 = seq![selected] + sels;
    assert(!round_settles(target, pruned, selected)) by {
        assert forall|x: ItemId|
            (has_key(target, x) || mentioned_by(selected, x) || mentioned_by(pruned, x)) implies #[trigger] producible(
            selected,
            x,
        ) by {
            if !producible(selected, x) {
                assert(relevant.contains(x));
                let q = choose|q: int| 0 <= q < relevant.len() && relevant[q] == x;
                relevant.lemma_filter_contains(|y: ItemId| !producible(selected, y), q);
            }
        }
        assert(ids.contains(ids[0]));
        assert(loop_closing(selected, target, ids[0]));
    }
    assert((|v: RecipeView| !ids.contains(v.unique_id)) =~= (|v: RecipeView| !loop_closing(selected, target, v.unique_id)));
    assert forall|i: int| 0 <= i < rounds2.len() implies #[trigger] selection_round(rounds2[i], target, pruneds2[i], sels2[i]) by {
        if i > 0 {
            assert(rounds2[i] == rounds[i - 1] && pruneds2[i] == pruneds[i - 1] && sels2[i] == sels[i - 1]);
            assert(selection_round(rounds[i - 1], target, pruneds[i - 1], sels[i - 1]));
        }
    }
    assert forall|i: int| 0 <= i < rounds2.len() - 1 implies !#[trigger] round_settles(target, pruneds2[i], sels2[i])
        && rounds2[i + 1].map_values(|r: Recipe| r@) == sels2[i].map_values(|r: Recipe| r@).filter(
        |v: RecipeView| !loop_closing(sels2[i], target, v.unique_id),
    ) by {
        if i > 0 {
            assert(rounds2[i] == rounds[i - 1] && pruneds2[i] == pruneds[i - 1] && sels2[i] == sels[i - 1]);
            assert(rounds2[i + 1] == rounds[i]);
            assert(!round_settles(target, pruneds[i - 1], sels[i - 1]));
        } else {
            assert(rounds2[1] == rounds[0]);
        }
    }
    assert(pruneds2.last() == pruneds.last() && sels2.last() == sels.last());
    assert(analysis_rounds(recipes, target, rounds2, pruneds2, sels2));
    assert forall|k: int|
        (forall|k2: int| 0 <= k2 < sels.last().len() ==> drawn_from(reduced, #[trigger] sels.last()[k2])) && 0 <= k
            < sels2.last().len() implies drawn_from(recipes, #[trigger] sels2.last()[k]) by {
        let used = sels.last();
        assert(drawn_from(reduced, used[k]));
        let m = choose|m: int| 0 <= m < reduced.len() && same_recipe_content(used[k], #[trigger] reduced[m]);
        assert(copy_of_one(selected, reduced[m]));
        let q = choose|q: int| 0 <= q < selected.len() && reduced[m]@ == #[trigger] selected[q]@;
        assert(drawn_from(recipes, selected[q]));
        let w = choose|w: int| 0 <= w < recipes.len() && same_recipe_content(selected[q], #[trigger] recipes[w]);
        assert(same_recipe_content(used[k], recipes[w]));
    }
}

/// No recipe lists a target item among its outputs.
pub open spec fn no_target_producer(recipes: Seq<Recipe>, target: Seq<(ItemId, usize)>) -> bool {
    forall|j: int, t: ItemId|
        #![trigger has_key(recipes[j].output@, t), has_key(target, t)]
        0 <= j < recipes.len() && has_key(target, t) ==> !has_key(recipes[j].output@, t)
}

/// Without a producer of a target item, no recipe is met on a backward route.
proof fn lemma_unreached(recipes: Seq<Recipe>, target: Seq<(ItemId, usize)>, j: int)
    requires
        no_target_producer(recipes, target),
        0 <= j < recipes.len(),
    ensures
        !crate::route_keys::recipe_reached(recipes, target, j),
{
    if crate::route_keys::recipe_reached(recipes, target, j) {
        let (rs, ys) = choose|rs: Seq<int>, ys: Seq<ItemId>|
            #[trigger] crate::route_keys::item_route(recipes, target, rs, ys) && has_key(recipes[j].output@, ys.last());
        if rs.len() == 0 {
            assert(ys.last() == ys[0]);
            assert(has_key(target, ys[0]));
        } else {
            assert(crate::route_keys::route_step(recipes, rs[0], ys[0], ys[1]));
            assert(has_key(target, ys[0]));
            assert(has_key(recipes[rs[0]].output@, ys[0]));
        }
    }
}

/// The base items to add to the start so that the target becomes reachable,
/// in a relaxed model where items no recipe produces may go negative.
///
/// Recipes are pruned, ranked and reduced to the top-priority producer per
/// item. When every relevant item has a producer, the recipes that close a
/// loop below a target item are left out and the analysis restarts, so that
/// a fully producible loop does not hide what it needs. Otherwise recipe
/// usages are fixed in rank order at their least values with only producible
/// items held to their targets, and every other relevant item is reported
/// with what it lacks. `None` when the solver fails or its answer does not
/// check out.
pub fn compute_required_base_items(recipes: Vec<Recipe>, starting_items: ItemSet, target: ItemSet) -> (required: Option<
    ItemSet,
>)
    ensures
        required matches Some(req) ==> {
            &&& keys_distinct(req@)
            &&& forall|k: int| 0 <= k < req@.len() ==> (#[trigger] req@[k]).1 > 0
            &&& reports_deficits(recipes@, starting_items@, target@, req@)
        },
        required is None ==> analysis_fails(recipes@, starting_items@, target@),
        no_target_producer(recipes@, target@) ==> (required matches Some(req) && forall|x: ItemId| #[trigger] count_of(
            req@,
            x,
        ) == if has_key(target@, x) {
            clamp_count(count_of(target@, x) - count_of(starting_items@, x))
        } else {
            0
        }),
    decreases recipes@.len(),
{
    let (pruned, pruned_relevant_item_ids) = prioritize_and_prune_relevant_recipes_and_items(&recipes, &target);
    let selected = select_top_priority_recipes_per_output_item(&pruned);
    let relevant_item_ids = collect_relevant_item_ids(&selected, &target, &pruned_relevant_item_ids);
    let items_with_no_recipes = collect_non_producible_items(&selected, &relevant_item_ids);
    let ghost round = (seq![recipes@], seq![pruned@], seq![selected@]);
    proof {
        assert(round_relevant(target@, pruned@, selected@, relevant_item_ids@));
        assert(items_with_no_recipes@ =~= no_recipe_items(selected@, relevant_item_ids@));
        assert(round.1.last() == pruned@ && round.2.last() == selected@);
        assert(round_relevant(target@, round.1.last(), round.2.last(), relevant_item_ids@));
    }
    let ghost no_producer = no_target_producer(recipes@, target@);
    proof {
        lemma_selection_drawn(recipes@, target@, pruned@, selected@);
        if no_producer {
            if pruned@.len() > 0 {
                let (order, keys) = choose|order: Seq<int>, keys: Seq<Seq<int>>| prioritized(recipes@, target@, order, keys, pruned@);
                assert(crate::route_keys::id_reached(recipes@, target@, pruned@[0].unique_id));
                let j = choose|j: int| 0 <= j < recipes@.len() && #[trigger] recipes@[j].unique_id == pruned@[0].unique_id
                    && crate::route_keys::recipe_reached(recipes@, target@, j);
                lemma_unreached(recipes@, target@, j);
            }
            assert(selected@.len() == 0);
        }
        assert(selection_round(recipes@, target@, pruned@, selected@));
        if items_with_no_recipes.len() > 0 {
            let x = items_with_no_recipes@[0];
            relevant_item_ids@.lemma_filter_pred(|y: ItemId| !producible(selected@, y), 0);
            assert(items_with_no_recipes@.contains(x));
            relevant_item_ids@.lemma_filter_contains_rev(|y: ItemId| !producible(selected@, y), x);
            assert(round_settles(target@, pruned@, selected@));
        }
    }
    if items_with_no_recipes.len() == 0 {
        let loop_closing_recipe_ids = collect_loop_closing_recipe_ids_on_target_branches(&selected, &target);
        if loop_closing_recipe_ids.len() > 0 {
            proof {
                let id = loop_closing_recipe_ids@[0];
                assert(loop_closing_recipe_ids@.contains(id));
                let (rs, ys, j) = choose|rs: Seq<int>, ys: Seq<ItemId>, j: int| #[trigger] closes_loop(selected@, target@, id, rs, ys, j);
                assert(loop_closing_recipe_ids@.contains(selected@[j].unique_id));
                assert(!no_producer);
            }
            let reduced = without_ids(&selected, &loop_closing_recipe_ids);
            let result = compute_required_base_items(reduced, starting_items, target);
            proof {
                lemma_selection_drawn(recipes@, target@, pruned@, selected@);
                if result is Some {
                    let req = result->0;
                    let (rounds, pruneds, sels, relevant, usage) = choose|
                        rounds: Seq<Seq<Recipe>>,
                        pruneds: Seq<Seq<Recipe>>,
                        sels: Seq<Seq<Recipe>>,
                        relevant: Seq<ItemId>,
                        usage: Seq<(usize, i64)>,
                    |
                        #![trigger analysis_rounds(reduced@, target@, rounds, pruneds, sels), round_relevant(target@, pruneds.last(), sels.last(), relevant), deficits(starting_items@, target@, sels.last(), usage, req@)]
                        analysis_rounds(reduced@, target@, rounds, pruneds, sels) && round_relevant(
                            target@,
                            pruneds.last(),
                            sels.last(),
                            relevant,
                        ) && (forall|k: int| 0 <= k < sels.last().len() ==> drawn_from(reduced@, #[trigger] sels.last()[k]))
                            && (forall|k: int| 0 <= k < usage.len() ==> (#[trigger] usage[k]).1 >= 0) && (if sels.last().len()
                            == 0 {
                            usage == Seq::<(usize, i64)>::empty()
                        } else {
                            relaxed_usage(sels.last(), relevant, starting_items@, target@, no_recipe_items(sels.last(), relevant))
                                == Some(usage)
                        }) && deficits(starting_items@, target@, sels.last(), usage, req@);
                    lemma_extend_rounds(
                        recipes@,
                        starting_items@,
                        target@,
                        pruned@,
                        selected@,
                        relevant_item_ids@,
                        items_with_no_recipes@,
                        loop_closing_recipe_ids@,
                        reduced@,
                        rounds,
                        pruneds,
                        sels,
                    );
                    let r2 = seq![recipes@] + rounds;
                    let p2 = seq![pruned@] + pruneds;
                    let s2 = seq![selected@] + sels;
                    assert(round_relevant(target@, p2.last(), s2.last(), relevant));
                    assert(deficits(starting_items@, target@, s2.last(), usage, req@));
                    assert(reports_deficits(recipes@, starting_items@, target@, req@));
                } else {
                    let (rounds, pruneds, sels, relevant) = choose|
                        rounds: Seq<Seq<Recipe>>,
                        pruneds: Seq<Seq<Recipe>>,
                        sels: Seq<Seq<Recipe>>,
                        relevant: Seq<ItemId>,
                    |
                        #![trigger analysis_rounds(reduced@, target@, rounds, pruneds, sels), round_relevant(target@, pruneds.last(), sels.last(), relevant)]
                        analysis_rounds(reduced@, target@, rounds, pruneds, sels) && round_relevant(
                            target@,
                            pruneds.last(),
                            sels.last(),
                            relevant,
                        ) && sels.last().len() > 0 && match relaxed_usage(
                            sels.last(),
                            relevant,
                            starting_items@,
                            target@,
                            no_recipe_items(sels.last(), relevant),
                        ) {
                            None => true,
                            Some(u) => !relaxed_usage_checks(
                                sels.last(),
                                u,
                                starting_items@,
                                target@,
                                relevant,
                                no_recipe_items(sels.last(), relevant),
                            ),
                        };
                    lemma_extend_rounds(
                        recipes@,
                        starting_items@,
                        target@,
                        pruned@,
                        selected@,
                        relevant_item_ids@,
                        items_with_no_recipes@,
                        loop_closing_recipe_ids@,
                        reduced@,
                        rounds,
                        pruneds,
                        sels,
                    );
                    let r2 = seq![recipes@] + rounds;
                    let p2 = seq![pruned@] + pruneds;
                    let s2 = seq![selected@] + sels;
                    assert(round_relevant(target@, p2.last(), s2.last(), relevant));
                    assert(analysis_fails(recipes@, starting_items@, target@));
                }
            }
            return result;
        } else {
            proof {
                assert forall|id: usize| !#[trigger] loop_closing(selected@, target@, id) by {
                    if loop_closing(selected@, target@, id) {
                        assert(loop_closing_recipe_ids@.contains(id));
                    }
                }
                assert(round_settles(target@, pruned@, selected@));
            }
        }
    }
    proof {
        assert(analysis_rounds(recipes@, target@, round.0, round.1, round.2));
    }
    if selected.len() == 0 {
        proof {
            lemma_no_dup_filter(relevant_item_ids@, |x: ItemId| !producible(selected@, x));
        }
        let required = deficits_without_recipes(&items_with_no_recipes, &starting_items, &target);
        proof {
            lemma_empty_deficits(selected@, relevant_item_ids@, items_with_no_recipes@, starting_items@, target@, required@);
            assert(deficits(starting_items@, target@, round.2.last(), Seq::empty(), required@));
            lemma_selection_drawn(recipes@, target@, pruned@, selected@);
            assert(reports_deficits(recipes@, starting_items@, target@, required@));
            if no_producer {
                assert forall|x: ItemId| #[trigger] items_with_no_recipes@.contains(x) <==> has_key(target@, x) by {
                    let pred = |y: ItemId| !producible(selected@, y);
                    if items_with_no_recipes@.contains(x) {
                        relevant_item_ids@.lemma_filter_contains_rev(pred, x);
                        assert(!mentioned_by(selected@, x));
                        assert(!mentioned_by(pruned@, x));
                        assert(!pruned_relevant_item_ids@.contains(x));
                    }
                    if has_key(target@, x) {
                        assert(relevant_item_ids@.contains(x));
                        let q = choose|q: int| 0 <= q < relevant_item_ids@.len() && relevant_item_ids@[q] == x;
                        assert(!producible(selected@, x));
                        relevant_item_ids@.lemma_filter_contains(pred, q);
                    }
                }
            }
        }
        return Some(required);
    }
    let mode = RecipeVariableMode::Unbounded;
    let (bounds, positions) = build_recipe_variables(&selected, &mode);
    let rows = build_item_flow_expressions_and_constraints(
        &selected,
        &positions,
        &relevant_item_ids,
        &starting_items,
        &target,
        &items_with_no_recipes,
    );
    let usage = match ranked_usage_of(&selected, &positions, &bounds, &rows) {
        Some(u) => u,
        None => {
            proof {
                assert(relaxed_usage(selected@, relevant_item_ids@, starting_items@, target@, items_with_no_recipes@) is None);
                assert(analysis_fails(recipes@, starting_items@, target@));
            }
            return None;
        },
    };
    proof {
        assert(relaxed_usage(selected@, relevant_item_ids@, starting_items@, target@, items_with_no_recipes@) == Some(usage@));
    }
    let required = match collect_deficits(
        &selected,
        &usage,
        &starting_items,
        &target,
        &relevant_item_ids,
        &items_with_no_recipes,
    ) {
        Some(r) => r,
        None => {
            proof {
                assert(analysis_fails(recipes@, starting_items@, target@));
            }
            return None;
        },
    };
    proof {
        lemma_solved_deficits(selected@, relevant_item_ids@, items_with_no_recipes@, starting_items@, target@, usage@, required@);
        assert(deficits(starting_items@, target@, round.2.last(), usage@, required@));
        lemma_selection_drawn(recipes@, target@, pruned@, selected@);
        assert(reports_deficits(recipes@, starting_items@, target@, required@));
    }
    Some(required)
}

/// What the start lacks of the target for each listed item, with no recipe to help.
fn deficits_without_recipes(items: &Vec<ItemId>, starting_items: &ItemSet, target: &ItemSet) -> (required: ItemSet)
    requires
        no_duplicates(items@),
    ensures
        keys_distinct(required@),
        forall|k: int| 0 <= k < required@.len() ==> (#[trigger] required@[k]).1 > 0,
        forall|x: ItemId| #[trigger] count_of(required@, x) == if items@.contains(x) {
            clamp_count(count_of(target@, x) - count_of(starting_items@, x))
        } else {
            0
        },
{
    let mut required = ItemSet { items: Vec::new() };
    let mut i: usize = 0;
    while i < items.len()
        invariant
            i <= items.len(),
            no_duplicates(items@),
            keys_distinct(required@),
            forall|q: int| 0 <= q < required@.len() ==> (#[trigger] required@[q]).1 > 0,
            forall|x: ItemId| #[trigger] count_of(required@, x) == if items@.take(i as int).contains(x) {
                clamp_count(count_of(target@, x) - count_of(starting_items@, x))
            } else {
                0
            },
        decreases items.len() - i,
    {
        let item = items[i];
        let needed = target.count(item).saturating_sub(starting_items.count(item));
        let ghost before = required@;
        proof {
            assert(!items@.take(i as int).contains(item)) by {
                if items@.take(i as int).contains(item) {
                    let q = choose|q: int| 0 <= q < i && #[trigger] items@.take(i as int)[q] == item;
                    assert(items@[q] == items@[i as int]);
                }
            }
            assert(count_of(before, item) == 0);
            lemma_key_index(before, item);
            if key_index(before, item) >= 0 {
                assert(before[key_index(before, item)].1 > 0);
            }
            assert(!has_key(before, item));
        }
        if needed > 0 {
            required.add_count(item, needed);
            proof {
                assert(required@ == before.push((item, needed)));
                assert forall|q: int| 0 <= q < required@.len() implies (#[trigger] required@[q]).1 > 0 by {
                    if q < before.len() {
                        assert(required@[q] == before[q]);
                    }
                }
                assert(keys_distinct(required@)) by {
                    assert forall|a: int, b: int| 0 <= a < b < required@.len() implies required@[a].0 != required@[b].0 by {
                        if b == before.len() {
                            assert(before[a].0 != item);
                        }
                    }
                }
            }
        }
        proof {
            assert forall|x: ItemId| #[trigger] items@.take(i + 1).contains(x) <==> (items@.take(i as int).contains(x) || x
                == item) by {
                if items@.take(i + 1).contains(x) {
                    let q = choose|q: int| 0 <= q < i + 1 && #[trigger] items@.take(i + 1)[q] == x;
                    if q < i {
                        assert(items@.take(i as int)[q] == x);
                    }
                }
                if items@.take(i as int).contains(x) {
                    let q = choose|q: int| 0 <= q < i && #[trigger] items@.take(i as int)[q] == x;
                    assert(items@.take(i + 1)[q] == x);
                }
                if x == item {
                    assert(items@.take(i + 1)[i as int] == x);
                }
            }
            assert forall|x: ItemId| #[trigger] count_of(required@, x) == if items@.take(i + 1).contains(x) {
                clamp_count(count_of(target@, x) - count_of(starting_items@, x))
            } else {
                0
            } by {
                lemma_key_index(before, x);
                assert(needed == clamp_count(count_of(target@, item) - count_of(starting_items@, item)));
                if needed > 0 {
                    crate::keyed_entries::lemma_key_index_push(before, (item, needed), x);
                    lemma_key_index(required@, x);
                    if x == item {
                        assert(key_index(required@, x) == before.len());
                        assert(count_of(required@, x) == needed);
                    } else {
                        assert(count_of(required@, x) == count_of(before, x));
                    }
                } else {
                    assert(required@ == before);
                }
            }
        }
        i = i + 1;
    }
    assert(items@.take(items@.len() as int) =~= items@);
    required
}

/// The selected recipes keep the content of the given ones.
proof fn lemma_selection_drawn(recipes: Seq<Recipe>, target: Seq<(ItemId, usize)>, pruned: Seq<Recipe>, selected: Seq<Recipe>)
    requires
        exists|order: Seq<int>, keys: Seq<Seq<int>>| prioritized(recipes, target, order, keys, pruned),
        exists|o: Seq<usize>| is_priority_order(pruned, o) && selected.map_values(|r: Recipe| r@) == greedy_selection(pruned, o),
    ensures
        forall|k: int| 0 <= k < selected.len() ==> drawn_from(recipes, #[trigger] selected[k]),
        pruned.len() <= recipes.len(),
{
    let (order, keys) = choose|order: Seq<int>, keys: Seq<Seq<int>>| prioritized(recipes, target, order, keys, pruned);
    lemma_pruned_drawn(recipes, target, order, keys, pruned);
    let sel_order = choose|o: Seq<usize>| is_priority_order(pruned, o) && selected.map_values(|r: Recipe| r@) == greedy_selection(pruned, o);
    lemma_selected_drawn(pruned, selected, sel_order);
    assert forall|k: int| 0 <= k < selected.len() implies drawn_from(recipes, #[trigger] selected[k]) by {
        assert(drawn_from(pruned, selected[k]));
        let m = choose|m: int| 0 <= m < pruned.len() && same_recipe_content(selected[k], #[trigger] pruned[m]);
        assert(drawn_from(recipes, pruned[m]));
        let q = choose|q: int| 0 <= q < recipes.len() && same_recipe_content(pruned[m], #[trigger] recipes[q]);
        assert(same_recipe_content(selected[k], recipes[q]));
    }
}

/// With no recipe selected, each item lacks what its target exceeds its start.
proof fn lemma_empty_deficits(
    selected: Seq<Recipe>,
    relevant: Seq<ItemId>,
    no_recipe: Seq<ItemId>,
    start: Seq<(ItemId, usize)>,
    target: Seq<(ItemId, usize)>,
    required: Seq<(ItemId, usize)>,
)
    requires
        selected.len() == 0,
        no_recipe == relevant.filter(|x: ItemId| !producible(selected, x)),
        forall|x: ItemId| has_key(target, x) ==> #[trigger] relevant.contains(x),
        forall|x: ItemId| #[trigger] count_of(required, x) == if no_recipe.contains(x) {
            clamp_count(count_of(target, x) - count_of(start, x))
        } else {
            0
        },
    ensures
        deficits(start, target, selected, Seq::empty(), required),
{
    let usage = Seq::<(usize, i64)>::empty();
    assert forall|x: ItemId| #[trigger] count_of(required, x) == if producible(selected, x) {
        0
    } else {
        clamp_count(count_of(target, x) - final_count(start, selected, usage, x))
    } && (producible(selected, x) ==> final_count(start, selected, usage, x) >= count_of(target, x)) by {
        assert(!producible(selected, x));
        assert(flow(selected, usage, x) == 0);
        if !no_recipe.contains(x) {
            if relevant.contains(x) {
                let q = choose|q: int| 0 <= q < relevant.len() && relevant[q] == x;
                relevant.lemma_filter_contains(|y: ItemId| !producible(selected, y), q);
            }
            assert(!has_key(target, x));
            lemma_key_index(target, x);
        }
    }
}

/// After a checked relaxed solve, the collected deficits are those of the
/// selected recipes under the solved usage.
proof fn lemma_solved_deficits(
    selected: Seq<Recipe>,
    relevant: Seq<ItemId>,
    no_recipe: Seq<ItemId>,
    start: Seq<(ItemId, usize)>,
    target: Seq<(ItemId, usize)>,
    usage: Seq<(usize, i64)>,
    required: Seq<(ItemId, usize)>,
)
    requires
        no_recipe == relevant.filter(|x: ItemId| !producible(selected, x)),
        forall|x: ItemId| has_key(target, x) ==> #[trigger] relevant.contains(x),
        forall|x: ItemId| mentioned_by(selected, x) ==> #[trigger] relevant.contains(x),
        forall|x: ItemId| !relevant.contains(x) ==> #[trigger] count_of(required, x) == 0,
        forall|x: ItemId| #[trigger] relevant.contains(x) ==> if no_recipe.contains(x) {
            count_of(required, x) == clamp_count(count_of(target, x) - final_count(start, selected, usage, x))
        } else {
            count_of(required, x) == 0 && final_count(start, selected, usage, x) >= count_of(target, x)
        },
    ensures
        deficits(start, target, selected, usage, required),
{
    assert forall|x: ItemId| #[trigger] count_of(required, x) == if producible(selected, x) {
        0
    } else {
        clamp_count(count_of(target, x) - final_count(start, selected, usage, x))
    } && (producible(selected, x) ==> final_count(start, selected, usage, x) >= count_of(target, x)) by {
        let pred = |y: ItemId| !producible(selected, y);
        if relevant.contains(x) {
            let q = choose|q: int| 0 <= q < relevant.len() && relevant[q] == x;
            if !producible(selected, x) {
                relevant.lemma_filter_contains(pred, q);
            } else {
                if no_recipe.contains(x) {
                    let w = choose|w: int| 0 <= w < no_recipe.len() && no_recipe[w] == x;
                    relevant.lemma_filter_pred(pred, w);
                }
            }
        } else {
            assert(!mentioned_by(selected, x));
            lemma_flow_unmentioned(selected, usage, x);
            assert(!has_key(target, x));
            lemma_key_index(target, x);
            if producible(selected, x) {
                let j = choose|j: int| 0 <= j < selected.len() && count_of(#[trigger] selected[j]@.output, x) > 0;
                lemma_key_index(selected[j]@.output, x);
                assert(mentioned_by(selected, x));
            }
        }
    }
}

/// Filtering a list without repeats gives a list without repeats.
proof fn lemma_no_dup_filter(s: Seq<usize>, pred: spec_fn(usize) -> bool)
    requires
        no_duplicates(s),
    ensures
        no_duplicates(s.filter(pred)),
    decreases s.len(),
{
    reveal(Seq::filter);
    if s.len() > 0 {
        let rest = s.drop_last();
        assert(no_duplicates(rest));
        lemma_no_dup_filter(rest, pred);
        if pred(s.last()) {
            let f = rest.filter(pred);
            assert(s.filter(pred) == f.push(s.last()));
            assert forall|a: int, b: int| 0 <= a < b < f.len() + 1 implies f.push(s.last())[a] != f.push(s.last())[b] by {
                if b == f.len() {
                    assert(f.contains(f[a]));
                    rest.lemma_filter_contains_rev(pred, f[a]);
                    let w = choose|w: int| 0 <= w < rest.len() && rest[w] == f[a];
                    assert(s[w] == rest[w]);
                }
            }
        }
    }
}

} // verus!
