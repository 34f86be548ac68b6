//! What the solver's answers promise once they are carried out: a found plan
//! crafts the target, the reported base items make up what the start lacks,
//! taking out what was put into an item set restores it, and recipes that
//! make only a target item are ranked by their own priority.
use vstd::prelude::*;
use crate::crafting_domain::{ItemId, Recipe, RecipeView, CraftingSolution};
use crate::crafting_solver::{
    deficits, executable_plan, final_count, flow, has_recipe_id, in_play, net_change, solution_fits,
};
use crate::keyed_entries::{
    add_entry, count_of, has_key, key_index, lemma_add_entry, lemma_key_index, lemma_sub_entry, sub_entry, value_of,
};
use crate::plan_semantics::{plan_end, plan_views, steps_total, stock};
use crate::recipe_analysis::{item_keys_bound, keys_fit_item_keys, mentioned_by, prioritized, ranked_as};
use crate::route_keys::{item_route, recipe_key_origin, route_priorities};
use crate::lex_order::lex_lt;

verus! {

/// No two recipes share an identity.
pub open spec fn distinct_ids(recipes: Seq<Recipe>) -> bool {
    forall|i: int, j: int| 0 <= i < j < recipes.len() ==> recipes[i].unique_id != recipes[j].unique_id
}

/// How `item` changes over all steps of a plan.
pub open spec fn steps_flow(steps: Seq<(RecipeView, usize)>, item: ItemId) -> int
    decreases steps.len(),
{
    if steps.len() == 0 {
        0
    } else {
        steps[0].1 * net_change(steps[0].0, item) + steps_flow(steps.drop_first(), item)
    }
}

/// How `item` changes when each recipe runs as often as `times` says of its
/// identity.
pub open spec fn flow_by(recipes: Seq<Recipe>, times: spec_fn(usize) -> int, item: ItemId) -> int
    decreases recipes.len(),
{
    if recipes.len() == 0 {
        0
    } else {
        flow_by(recipes.drop_last(), times, item) + net_change(recipes.last()@, item) * times(
            recipes.last().unique_id,
        )
    }
}

/// A step applies a recipe of `recipes`, as far as items go.
pub open spec fn step_listed(recipes: Seq<Recipe>, step: RecipeView) -> bool {
    exists|j: int|
        0 <= j < recipes.len() && #[trigger] recipes[j].unique_id == step.unique_id && recipes[j]@.input == step.input
            && recipes[j]@.output == step.output
}

proof fn lemma_plan_end_flow(inv: spec_fn(ItemId) -> int, steps: Seq<(RecipeView, usize)>, item: ItemId)
    ensures
        plan_end(inv, steps)(item) == inv(item) + steps_flow(steps, item),
    decreases steps.len(),
{
    if steps.len() > 0 {
        let next = crate::plan_semantics::apply_units(inv, steps[0].0, steps[0].1 as int);
        lemma_plan_end_flow(next, steps.drop_first(), item);
    }
}

proof fn lemma_flow_by_usage(recipes: Seq<Recipe>, usage: Seq<(usize, i64)>, item: ItemId)
    ensures
        flow(recipes, usage, item) == flow_by(recipes, |id: usize| value_of(usage, id), item),
    decreases recipes.len(),
{
    if recipes.len() > 0 {
        lemma_flow_by_usage(recipes.drop_last(), usage, item);
    }
}

proof fn lemma_flow_by_agree(recipes: Seq<Recipe>, a: spec_fn(usize) -> int, b: spec_fn(usize) -> int, item: ItemId)
    requires
        forall|j: int| 0 <= j < recipes.len() ==> a(#[trigger] recipes[j].unique_id) == b(recipes[j].unique_id),
    ensures
        flow_by(recipes, a, item) == flow_by(recipes, b, item),
    decreases recipes.len(),
{
    if recipes.len() > 0 {
        let rest = recipes.drop_last();
        assert forall|j: int| 0 <= j < rest.len() implies a(#[trigger] rest[j].unique_id) == b(rest[j].unique_id) by {
            assert(rest[j] == recipes[j]);
        }
        lemma_flow_by_agree(rest, a, b, item);
        assert(recipes.last() == recipes[recipes.len() - 1]);
    }
}

proof fn lemma_flow_by_zero(recipes: Seq<Recipe>, none: spec_fn(usize) -> int, item: ItemId)
    requires
        forall|id: usize| #[trigger] none(id) == 0,
    ensures
        flow_by(recipes, none, item) == 0,
    decreases recipes.len(),
{
    if recipes.len() > 0 {
        lemma_flow_by_zero(recipes.drop_last(), none, item);
        assert(none(recipes.last().unique_id) == 0);
    }
}

/// Raising the count of one identity by `delta` raises the flow by `delta`
/// runs of its recipe.
proof fn lemma_flow_by_bump(
    recipes: Seq<Recipe>,
    a: spec_fn(usize) -> int,
    b: spec_fn(usize) -> int,
    at: int,
    delta: int,
    item: ItemId,
)
    requires
        distinct_ids(recipes),
        0 <= at < recipes.len(),
        forall|id: usize| id != recipes[at].unique_id ==> #[trigger] b(id) == a(id),
        b(recipes[at].unique_id) == a(recipes[at].unique_id) + delta,
    ensures
        flow_by(recipes, b, item) == flow_by(recipes, a, item) + delta * net_change(recipes[at]@, item),
    decreases recipes.len(),
{
    let rest = recipes.drop_last();
    let last = recipes.last();
    assert(last == recipes[recipes.len() - 1]);
    let n = net_change(last@, item);
    if at == recipes.len() - 1 {
        assert forall|j: int| 0 <= j < rest.len() implies a(#[trigger] rest[j].unique_id) == b(rest[j].unique_id) by {
            assert(rest[j] == recipes[j]);
        }
        lemma_flow_by_agree(rest, a, b, item);
        let d = a(last.unique_id);
        assert(n * (d + delta) == n * d + delta * n) by (nonlinear_arith);
    } else {
        assert(distinct_ids(rest)) by {
            assert forall|i: int, j: int| 0 <= i < j < rest.len() implies rest[i].unique_id != rest[j].unique_id by {
                assert(rest[i] == recipes[i] && rest[j] == recipes[j]);
            }
        }
        assert(rest[at] == recipes[at]);
        lemma_flow_by_bump(rest, a, b, at, delta, item);
        assert(last.unique_id != recipes[at].unique_id);
    }
}

/// The flow of a plan whose steps all apply listed recipes is the flow of
/// the listed recipes, each run as often as the plan applies its identity.
proof fn lemma_steps_flow_by_totals(steps: Seq<(RecipeView, usize)>, recipes: Seq<Recipe>, item: ItemId)
    requires
        distinct_ids(recipes),
        forall|k: int| 0 <= k < steps.len() ==> step_listed(recipes, (#[trigger] steps[k]).0),
    ensures
        steps_flow(steps, item) == flow_by(recipes, |id: usize| steps_total(steps, id) as int, item),
    decreases steps.len(),
{
    if steps.len() == 0 {
        lemma_flow_by_zero(recipes, |id: usize| steps_total(steps, id) as int, item);
    } else {
        let rest = steps.drop_first();
        assert forall|k: int| 0 <= k < rest.len() implies step_listed(recipes, (#[trigger] rest[k]).0) by {
            assert(rest[k] == steps[k + 1]);
        }
        lemma_steps_flow_by_totals(rest, recipes, item);
        let s = steps[0];
        assert(step_listed(recipes, steps[0].0));
        let at = choose|j: int|
            0 <= j < recipes.len() && #[trigger] recipes[j].unique_id == s.0.unique_id && recipes[j]@.input == s.0.input
                && recipes[j]@.output == s.0.output;
        lemma_flow_by_bump(
            recipes,
            |id: usize| steps_total(rest, id) as int,
            |id: usize| steps_total(steps, id) as int,
            at,
            s.1 as int,
            item,
        );
    }
}

/// A step of a plan counts towards the total of its recipe.
proof fn lemma_total_covers_step(steps: Seq<(RecipeView, usize)>, k: int)
    requires
        0 <= k < steps.len(),
    ensures
        steps_total(steps, steps[k].0.unique_id) >= steps[k].1,
    decreases steps.len(),
{
    if k > 0 {
        assert(steps.drop_first()[k - 1] == steps[k]);
        lemma_total_covers_step(steps.drop_first(), k - 1);
    }
}

/// A found plan crafts the target: when `find_executable_solution_via_cycle_elimination`
/// returns a solution and a plan for recipes with distinct identities,
/// carrying out the plan from the starting inventory ends with exactly the
/// final counts of the solution, so every target item, and every item the
/// kept recipes need or produce, is at or above its target count.
pub proof fn lemma_plan_reaches_target(
    recipes: Seq<Recipe>,
    start: Seq<(ItemId, usize)>,
    target: Seq<(ItemId, usize)>,
    order: Seq<int>,
    keys: Seq<Seq<int>>,
    pruned: Seq<Recipe>,
    disabled: Seq<usize>,
    sol: CraftingSolution,
    plan: Seq<(Recipe, usize)>,
)
    requires
        distinct_ids(recipes),
        prioritized(recipes, target, order, keys, pruned),
        solution_fits(pruned, start, target, disabled, sol),
        executable_plan(recipes, start, sol.recipe_values@, plan),
    ensures
        forall|x: ItemId| #[trigger] plan_end(stock(start), plan_views(plan))(x) == final_count(
            start,
            pruned,
            sol.recipe_values@,
            x,
        ),
        forall|x: ItemId| #[trigger] in_play(pruned, target, x) ==> plan_end(stock(start), plan_views(plan))(x) >= count_of(
            target,
            x,
        ),
{
    let usage = sol.recipe_values@;
    let steps = plan_views(plan);
    assert(distinct_ids(pruned)) by {
        assert forall|i: int, j: int| 0 <= i < j < pruned.len() implies pruned[i].unique_id != pruned[j].unique_id by {
            assert(order[i] != order[j]);
            if order[i] < order[j] {
                assert(recipes[order[i]].unique_id != recipes[order[j]].unique_id);
            } else {
                assert(recipes[order[j]].unique_id != recipes[order[i]].unique_id);
            }
        }
    }
    // Every usage lies in 0..=i32::MAX, so the plan applies each kept recipe
    // exactly as often as its usage says.
    assert forall|id: usize| 0 <= #[trigger] value_of(usage, id) <= i32::MAX by {
        lemma_key_index(usage, id);
        if key_index(usage, id) >= 0 {
            assert(0 <= usage[key_index(usage, id)].1 <= i32::MAX);
        }
    }
    assert forall|k: int| 0 <= k < steps.len() implies step_listed(pruned, (#[trigger] steps[k]).0) by {
        assert(steps[k] == (plan[k].0@, plan[k].1));
        assert(plan[k].1 >= 1);
        let j = choose|j: int| 0 <= j < recipes.len() && plan[k].0@ == recipes[j]@;
        let id = recipes[j].unique_id;
        lemma_total_covers_step(steps, k);
        assert(steps_total(steps, id) >= 1);
        assert(value_of(usage, id) >= 1);
        lemma_key_index(usage, id);
        assert(has_key(usage, id));
        assert(has_recipe_id(pruned, id));
        let i = choose|i: int| 0 <= i < pruned.len() && #[trigger] pruned[i].unique_id == id;
        assert(recipes[order[i]].unique_id == id);
        if order[i] < j {
            assert(recipes[order[i]].unique_id != recipes[j].unique_id);
        } else if order[i] > j {
            assert(recipes[j].unique_id != recipes[order[i]].unique_id);
        }
        assert(pruned[i]@.input == steps[k].0.input);
    }
    assert forall|x: ItemId| #[trigger] plan_end(stock(start), steps)(x) == final_count(start, pruned, usage, x) by {
        lemma_plan_end_flow(stock(start), steps, x);
        lemma_steps_flow_by_totals(steps, pruned, x);
        assert forall|i: int| 0 <= i < pruned.len() implies (|id: usize| steps_total(steps, id) as int)(
            #[trigger] pruned[i].unique_id,
        ) == (|id: usize| value_of(usage, id))(pruned[i].unique_id) by {
            let j = order[i];
            assert(pruned[i].unique_id == recipes[j].unique_id);
            assert(steps_total(steps, recipes[j].unique_id) == crate::execution_planner::usage_count(
                value_of(usage, recipes[j].unique_id),
            ));
        }
        lemma_flow_by_agree(pruned, |id: usize| steps_total(steps, id) as int, |id: usize| value_of(usage, id), x);
        lemma_flow_by_usage(pruned, usage, x);
    }
}

/// The reported base items make up what the start lacks: when
/// `compute_required_base_items` reports `required` for the recipes `used`
/// run as `usage` says, adding `required` to the starting inventory brings
/// every item to its target, wherever the shortfall fits in a `usize`.
pub proof fn lemma_required_items_suffice(
    start: Seq<(ItemId, usize)>,
    target: Seq<(ItemId, usize)>,
    used: Seq<Recipe>,
    usage: Seq<(usize, i64)>,
    required: Seq<(ItemId, usize)>,
)
    requires
        deficits(start, target, used, usage, required),
    ensures
        forall|x: ItemId|
            count_of(target, x) - final_count(start, used, usage, x) <= usize::MAX ==> count_of(start, x) + count_of(
                required,
                x,
            ) + flow(used, usage, x) >= #[trigger] count_of(target, x),
{
}

/// Taking out of an item set what was just put in restores every count.
pub proof fn lemma_subtract_undoes_add(items: Seq<(ItemId, usize)>, item: ItemId, count: usize)
    requires
        count_of(items, item) + count <= usize::MAX,
    ensures
        forall|x: ItemId| #[trigger] count_of(sub_entry(add_entry(items, item, count), item, count), x) == count_of(
            items,
            x,
        ),
{
    assert forall|x: ItemId| #[trigger] count_of(sub_entry(add_entry(items, item, count), item, count), x) == count_of(
        items,
        x,
    ) by {
        lemma_add_entry(items, item, count, item);
        lemma_add_entry(items, item, count, x);
        lemma_sub_entry(add_entry(items, item, count), item, count, x);
    }
}

/// The recipe makes exactly one item, and that item is a target item.
pub open spec fn makes_only_target(target: Seq<(ItemId, usize)>, r: Recipe) -> bool {
    r@.output.len() == 1 && has_key(target, r@.output[0].0)
}

/// A kept recipe that makes only a target item is keyed by its own base
/// priority alone.
proof fn lemma_target_producer_key(
    recipes: Seq<Recipe>,
    target: Seq<(ItemId, usize)>,
    order: Seq<int>,
    keys: Seq<Seq<int>>,
    out: Seq<Recipe>,
    i: int,
)
    requires
        distinct_ids(recipes),
        prioritized(recipes, target, order, keys, out),
        0 <= i < out.len(),
        makes_only_target(target, out[i]),
    ensures
        keys[i] == seq![out[i].base_priority as int],
{
    reveal(keys_fit_item_keys);
    let ikeys = choose|ikeys: Map<ItemId, Seq<int>>| #[trigger] item_keys_bound(recipes, target, ikeys, out, keys);
    assert(recipe_key_origin(recipes, target, ikeys, out[i].unique_id, keys[i]));
    let (j, rs, ys) = choose|j: int, rs: Seq<int>, ys: Seq<ItemId>|
        0 <= j < recipes.len() && #[trigger] recipes[j].unique_id == out[i].unique_id && #[trigger] item_route(
            recipes,
            target,
            rs,
            ys,
        ) && has_key(recipes[j].output@, ys.last()) && keys[i] == route_priorities(recipes, rs).push(
            recipes[j].base_priority as int,
        ) && ikeys.dom().contains(ys.last()) && crate::lex_order::lex_le(ikeys[ys.last()], route_priorities(recipes, rs))
            && (has_key(target, ys.last()) ==> route_priorities(recipes, rs) == Seq::<int>::empty());
    let o = order[i];
    assert(ranked_as(recipes[o], out[i], i));
    assert(j == o) by {
        if j < o {
            assert(recipes[j].unique_id != recipes[o].unique_id);
        } else if j > o {
            assert(recipes[o].unique_id != recipes[j].unique_id);
        }
    }
    let q = choose|q: int| 0 <= q < recipes[j].output@.len() && #[trigger] recipes[j].output@[q].0 == ys.last();
    assert(q == 0);
    assert(route_priorities(recipes, rs) == Seq::<int>::empty());
    assert(keys[i] =~= seq![out[i].base_priority as int]);
}

/// Recipes that make only a target item are ranked by their base priority:
/// a lower priority comes first, and equal priorities keep the input order.
pub proof fn lemma_target_producers_by_priority(
    recipes: Seq<Recipe>,
    target: Seq<(ItemId, usize)>,
    order: Seq<int>,
    keys: Seq<Seq<int>>,
    out: Seq<Recipe>,
    i: int,
    l: int,
)
    requires
        distinct_ids(recipes),
        prioritized(recipes, target, order, keys, out),
        0 <= i < l < out.len(),
        makes_only_target(target, out[i]),
        makes_only_target(target, out[l]),
    ensures
        out[i].base_priority <= out[l].base_priority,
        out[i].base_priority == out[l].base_priority ==> order[i] < order[l],
{
    lemma_target_producer_key(recipes, target, order, keys, out, i);
    lemma_target_producer_key(recipes, target, order, keys, out, l);
    assert(!lex_lt(keys[l], keys[i]));
    if out[l].base_priority < out[i].base_priority {
        assert(lex_lt(keys[l], keys[i]));
    }
}

} // verus!
