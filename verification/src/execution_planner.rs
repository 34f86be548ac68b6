//! Turns solved recipe usage totals into an ordered plan of recipe batches in
//! which every application finds its inputs in the inventory of that moment.
use vstd::prelude::*;
use vstd::string::StringExecFns;
use crate::crafting_domain::{decimal_text, ItemId, ItemSet, Recipe, RecipeView};
use crate::keyed_entries::{
    count_of, find_key, key_index, keys_distinct, lemma_count_le_sum, lemma_key_index, lemma_key_index_at, lemma_key_index_push, lemma_key_index_update_same_key, lemma_sum_update,
    lookup_count, lookup_value, sum_counts, value_of,
};
use crate::plan_semantics::{
    apply_units, in_count, inputs_available, lemma_batch_runs, lemma_merge_steps,
    merge_steps, out_count, plan_runs, plan_views, same_effect, steps_total, batches_affordable,
    stock,
};
use crate::recipe_analysis::detect_recipe_cycles;

verus! {

/// A usage value as a count of applications (saturating like a float-to-integer cast).
pub open spec fn usage_count(v: int) -> nat {
    if v <= 0 {
        0
    } else if v > usize::MAX {
        usize::MAX as nat
    } else {
        v as nat
    }
}

/// Some recipe among the first `n` has identity `id`.
pub open spec fn seen_id(recipes: Seq<Recipe>, n: int, id: usize) -> bool {
    exists|j: int| 0 <= j < n && #[trigger] recipes[j].unique_id == id
}

proof fn lemma_seen_step(recipes: Seq<Recipe>, n: int, id: usize)
    requires
        0 <= n < recipes.len(),
    ensures
        seen_id(recipes, n + 1, id) == (seen_id(recipes, n, id) || recipes[n].unique_id == id),
{
    if seen_id(recipes, n + 1, id) && recipes[n].unique_id != id {
        let j = choose|j: int| 0 <= j < n + 1 && #[trigger] recipes[j].unique_id == id;
        assert(j < n);
    }
    if seen_id(recipes, n, id) {
        let j = choose|j: int| 0 <= j < n && #[trigger] recipes[j].unique_id == id;
        assert(0 <= j < n + 1);
    }
    if recipes[n].unique_id == id {
        assert(recipes[n].unique_id == id);
    }
}

/// The raw steps found by the search, as views.
pub open spec fn raw_views(recipes: Seq<Recipe>, steps: Seq<(usize, usize)>) -> Seq<(RecipeView, usize)> {
    steps.map_values(|p: (usize, usize)| (recipes[p.0 as int]@, p.1))
}

/// The search's result: valid indices and batches, runnable from `inv` with
/// each batch's inputs present at once, and
/// using each recipe identity exactly as often as `remaining` asks.
pub open spec fn raw_plan_ok(
    recipes: Seq<Recipe>,
    remaining: Seq<(usize, usize)>,
    inv: spec_fn(ItemId) -> int,
    steps: Seq<(usize, usize)>,
) -> bool {
    &&& forall|k: int| 0 <= k < steps.len() ==> (#[trigger] steps[k]).0 < recipes.len() && steps[k].1 >= 1
    &&& plan_runs(inv, raw_views(recipes, steps))
    &&& batches_affordable(inv, raw_views(recipes, steps))
    &&& forall|id: usize| #[trigger] steps_total(raw_views(recipes, steps), id) == count_of(remaining, id)
}

/// Applying the recipes at positions `units` one at a time from `inv`: each
/// application finds its inputs, and no count ever exceeds `usize::MAX`.
pub open spec fn units_run(recipes: Seq<Recipe>, inv: spec_fn(ItemId) -> int, units: Seq<usize>) -> bool
    decreases units.len(),
{
    if units.len() == 0 {
        true
    } else {
        &&& units[0] < recipes.len()
        &&& inputs_available(inv, recipes[units[0] as int]@, 1)
        &&& forall|i: ItemId| #[trigger] apply_units(inv, recipes[units[0] as int]@, 1)(i) <= usize::MAX
        &&& units_run(recipes, apply_units(inv, recipes[units[0] as int]@, 1), units.drop_first())
    }
}

/// How many of the units apply a recipe with identity `id`.
pub open spec fn units_total(recipes: Seq<Recipe>, units: Seq<usize>, id: usize) -> nat
    decreases units.len(),
{
    if units.len() == 0 {
        0
    } else {
        (if recipes[units[0] as int].unique_id == id {
            1nat
        } else {
            0nat
        }) + units_total(recipes, units.drop_first(), id)
    }
}

/// Some order of single applications carries out exactly the counts of
/// `need` from `inv`.
pub open spec fn completable(recipes: Seq<Recipe>, need: Seq<(usize, usize)>, inv: spec_fn(ItemId) -> int) -> bool {
    exists|units: Seq<usize>|
        units_run(recipes, inv, units) && forall|id: usize| #[trigger] units_total(recipes, units, id) == count_of(need, id)
}

/// Such an order exists and starts with the recipe at position `first`.
pub open spec fn completable_from(
    recipes: Seq<Recipe>,
    need: Seq<(usize, usize)>,
    inv: spec_fn(ItemId) -> int,
    first: usize,
) -> bool {
    exists|units: Seq<usize>|
        units.len() > 0 && units[0] == first && units_run(recipes, inv, units) && forall|id: usize|
            #[trigger] units_total(recipes, units, id) == count_of(need, id)
}

/// What a plan for `usage` must carry out: each identity of the recipes as
/// often as its usage says.
pub open spec fn planned_count(recipes: Seq<Recipe>, usage: Seq<(usize, i64)>, id: usize) -> nat {
    if seen_id(recipes, recipes.len() as int, id) {
        usage_count(value_of(usage, id))
    } else {
        0
    }
}

/// Some order of single applications of the recipes, from `inv` and with
/// every count within `usize`, carries out exactly the usage.
pub open spec fn plannable(recipes: Seq<Recipe>, usage: Seq<(usize, i64)>, inv: spec_fn(ItemId) -> int) -> bool {
    exists|units: Seq<usize>|
        units_run(recipes, inv, units) && forall|id: usize| #[trigger] units_total(recipes, units, id) == planned_count(
            recipes,
            usage,
            id,
        )
}

/// With some count left, a completing order has a first application.
proof fn lemma_first_unit(recipes: Seq<Recipe>, need: Seq<(usize, usize)>, inv: spec_fn(ItemId) -> int)
    requires
        completable(recipes, need, inv),
        keys_distinct(need),
        sum_counts(need) > 0,
    ensures
        exists|j: usize| #[trigger] completable_from(recipes, need, inv, j),
{
    let units = choose|units: Seq<usize>|
        units_run(recipes, inv, units) && forall|id: usize| #[trigger] units_total(recipes, units, id) == count_of(need, id);
    if forall|k: int| 0 <= k < need.len() ==> need[k].1 == 0 {
        lemma_sum_all_zero(need);
    }
    let k = choose|k: int| 0 <= k < need.len() && need[k].1 != 0;
    assert forall|q: int| 0 <= q < k implies need[q].0 != need[k].0 by {
        assert(q < k);
    }
    lemma_key_index_at(need, need[k].0, k);
    assert(units_total(recipes, units, need[k].0) > 0);
    assert(units.len() > 0);
    assert(completable_from(recipes, need, inv, units[0]));
}

/// The counts all being zero makes the sum zero.
proof fn lemma_sum_all_zero(s: Seq<(usize, usize)>)
    requires
        forall|k: int| 0 <= k < s.len() ==> s[k].1 == 0,
    ensures
        sum_counts(s) == 0,
    decreases s.len(),
{
    if s.len() > 0 {
        lemma_sum_all_zero(s.drop_last());
    }
}

/// The first application of a completing order can run once and leaves a
/// completable remainder.
proof fn lemma_after_first_unit(
    recipes: Seq<Recipe>,
    need: Seq<(usize, usize)>,
    inv: spec_fn(ItemId) -> int,
    j: usize,
)
    requires
        completable_from(recipes, need, inv, j),
    ensures
        j < recipes.len(),
        count_of(need, recipes[j as int].unique_id) >= 1,
        key_index(need, recipes[j as int].unique_id) >= 0,
        inputs_available(inv, recipes[j as int]@, 1),
        forall|i: ItemId| #[trigger] apply_units(inv, recipes[j as int]@, 1)(i) <= usize::MAX,
        completable(
            recipes,
            need.update(
                key_index(need, recipes[j as int].unique_id),
                (recipes[j as int].unique_id, (count_of(need, recipes[j as int].unique_id) - 1) as usize),
            ),
            apply_units(inv, recipes[j as int]@, 1),
        ),
{
    let units = choose|units: Seq<usize>|
        units.len() > 0 && units[0] == j && units_run(recipes, inv, units) && forall|id: usize|
            #[trigger] units_total(recipes, units, id) == count_of(need, id);
    let id0 = recipes[j as int].unique_id;
    assert(units_total(recipes, units, id0) >= 1);
    lemma_key_index(need, id0);
    let p = key_index(need, id0);
    let next = need.update(p, (id0, (count_of(need, id0) - 1) as usize));
    let rest = units.drop_first();
    assert forall|id: usize| #[trigger] units_total(recipes, rest, id) == count_of(next, id) by {
        lemma_key_index_update_same_key(need, p, (id0, (count_of(need, id0) - 1) as usize), id);
        lemma_key_index(need, id);
        assert(units_total(recipes, units, id) == (if id0 == id { 1nat } else { 0nat }) + units_total(recipes, rest, id));
    }
    assert(units_run(recipes, apply_units(inv, recipes[j as int]@, 1), rest));
}

/// Recipes sharing an identity need and produce the same counts (as
/// identities computed from content do).
pub open spec fn identity_fixes_content(recipes: Seq<Recipe>) -> bool {
    forall|i: int, j: int|
        0 <= i < recipes.len() && 0 <= j < recipes.len() && #[trigger] recipes[i].unique_id == #[trigger] recipes[j].unique_id
            ==> recipes[i]@.input == recipes[j]@.input && recipes[i]@.output == recipes[j]@.output
}

/// The largest batch whose inputs are all present at once (`usize::MAX` when the
/// recipe needs nothing).
fn compute_max_affordable_batch(recipe: &Recipe, inventory: &ItemSet) -> (max_batch: usize)
    ensures
        inputs_available(stock(inventory@), recipe@, max_batch as int),
        max_batch < usize::MAX ==> !inputs_available(stock(inventory@), recipe@, max_batch + 1),
{
    let mut max_batch: usize = usize::MAX;
    let ghost inv = stock(inventory@);
    let ghost r = recipe@;
    let mut j: usize = 0;
    while j < recipe.input.items.len()
        invariant
            j <= recipe.input.items.len(),
            inv == stock(inventory@),
            r == recipe@,
            forall|i: ItemId|
                0 <= key_index(r.input, i) < j ==> max_batch * #[trigger] in_count(r, i) <= inv(i),
            max_batch < usize::MAX ==> !inputs_available(inv, r, max_batch + 1),
        decreases recipe.input.items.len() - j,
    {
        let (item_id, input_count) = recipe.input.items[j];
        proof {
            lemma_key_index(r.input, item_id);
        }
        let first = find_key(&recipe.input.items, item_id);
        if input_count != 0 && first == Some(j) {
            let available = inventory.count(item_id);
            let fit = available / input_count;
            let old_max = max_batch;
            if fit < max_batch {
                max_batch = fit;
            }
            proof {
                assert(in_count(r, item_id) == input_count);
                assert(fit * input_count <= available) by (nonlinear_arith)
                    requires
                        fit == available / input_count,
                        input_count > 0,
                ;
                assert forall|i: ItemId|
                    0 <= key_index(r.input, i) < j + 1 implies max_batch * #[trigger] in_count(r, i)
                    <= inv(i) by {
                    let c = in_count(r, i);
                    if key_index(r.input, i) < j {
                        assert(old_max * c <= inv(i));
                        assert(max_batch * c <= old_max * c) by (nonlinear_arith)
                            requires
                                max_batch <= old_max,
                                c >= 0,
                        ;
                    } else {
                        lemma_key_index(r.input, i);
                        assert(i == item_id);
                        assert(max_batch * input_count <= fit * input_count) by (nonlinear_arith)
                            requires
                                max_batch <= fit,
                        ;
                    }
                }
                if fit < old_max {
                    assert((fit + 1) * input_count > available) by (nonlinear_arith)
                        requires
                            fit == available / input_count,
                            input_count > 0,
                    ;
                    assert(!inputs_available(inv, r, max_batch + 1)) by {
                        assert((max_batch + 1) * in_count(r, item_id) > inv(item_id));
                    }
                }
            }
        } else {
            proof {
                if first == Some(j) {
                    assert(in_count(r, item_id) == 0);
                }
                assert forall|i: ItemId|
                    0 <= key_index(r.input, i) < j + 1 implies max_batch * #[trigger] in_count(r, i)
                    <= inv(i) by {
                    if key_index(r.input, i) == j {
                        lemma_key_index(r.input, i);
                        assert(i == item_id);
                        assert(in_count(r, i) == 0);
                        assert(max_batch * 0 == 0);
                    }
                }
            }
        }
        j = j + 1;
    }
    proof {
        assert forall|i: ItemId| max_batch * #[trigger] in_count(r, i) <= inv(i) by {
            lemma_key_index(r.input, i);
            if key_index(r.input, i) < 0 {
                assert(in_count(r, i) == 0);
                assert(max_batch * 0 == 0);
            }
        }
    }
    max_batch
}

/// Applies a batch: consumes its inputs, adds its outputs. `None` when an output
/// count would not fit in a `usize`.
fn apply_recipe_batch(recipe: &Recipe, batch: usize, inventory: &ItemSet) -> (next: Option<ItemSet>)
    requires
        inputs_available(stock(inventory@), recipe@, batch as int),
    ensures
        next matches Some(n) ==> stock(n@) == apply_units(stock(inventory@), recipe@, batch as int),
        next is None ==> exists|i: ItemId| #[trigger] apply_units(stock(inventory@), recipe@, batch as int)(i)
            > usize::MAX,
{
    let ghost inv = stock(inventory@);
    let ghost r = recipe@;
    let mut next = inventory.clone();
    let mut j: usize = 0;
    while j < recipe.input.items.len()
        invariant
            j <= recipe.input.items.len(),
            inv == stock(inventory@),
            r == recipe@,
            inputs_available(inv, r, batch as int),
            forall|i: ItemId| #[trigger] next.spec_count(i) == inv(i) - if 0 <= key_index(r.input, i) < j {
                batch * in_count(r, i)
            } else {
                0
            },
        decreases recipe.input.items.len() - j,
    {
        let (item_id, input_count) = recipe.input.items[j];
        proof {
            lemma_key_index(r.input, item_id);
        }
        if find_key(&recipe.input.items, item_id) == Some(j) {
            proof {
                assert(in_count(r, item_id) == input_count);
                assert(batch * in_count(r, item_id) <= inv(item_id));
            }
            proof {
                assert(input_count * batch == batch * input_count) by (nonlinear_arith);
            }
            let required = input_count * batch;
            next.subtract_count(item_id, required);
        }
        proof {
            assert forall|i: ItemId| #[trigger] next.spec_count(i) == inv(i) - if 0 <= key_index(r.input, i) < j + 1 {
                batch * in_count(r, i)
            } else {
                0
            } by {
                lemma_key_index(r.input, i);
                if key_index(r.input, i) == j {
                    assert(i == item_id);
                }
            }
        }
        j = j + 1;
    }
    proof {
        assert forall|i: ItemId| #[trigger] next.spec_count(i) == inv(i) - batch * in_count(r, i) + if 0
            <= key_index(r.output, i) < 0 {
            batch * out_count(r, i)
        } else {
            0
        } by {
            lemma_key_index(r.input, i);
            if key_index(r.input, i) < 0 {
                assert(batch * in_count(r, i) == batch * 0);
            }
        }
    }
    let mut k: usize = 0;
    while k < recipe.output.items.len()
        invariant
            k <= recipe.output.items.len(),
            inv == stock(inventory@),
            r == recipe@,
            inputs_available(inv, r, batch as int),
            forall|i: ItemId| #[trigger] next.spec_count(i) == inv(i) - batch * in_count(r, i) + if 0
                <= key_index(r.output, i) < k {
                batch * out_count(r, i)
            } else {
                0
            },
        decreases recipe.output.items.len() - k,
    {
        let (item_id, output_count) = recipe.output.items[k];
        proof {
            lemma_key_index(r.output, item_id);
        }
        if find_key(&recipe.output.items, item_id) == Some(k) {
            let produced = output_count.checked_mul(batch);
            match produced {
                None => {
                    proof {
                        let c = in_count(r, item_id);
                        assert(batch * c <= inv(item_id));
                        assert(output_count * batch > usize::MAX);
                        assert(apply_units(inv, r, batch as int)(item_id) == inv(item_id) + batch * (
                        output_count - c));
                        assert(batch * (output_count - c) == batch * output_count - batch * c)
                            by (nonlinear_arith);
                        assert(batch * output_count == output_count * batch) by (nonlinear_arith);
                    }
                    return None;
                },
                Some(amount) => {
                    let current = next.count(item_id);
                    if current > usize::MAX - amount {
                        proof {
                            let c = in_count(r, item_id);
                            assert(out_count(r, item_id) == output_count);
                            assert(apply_units(inv, r, batch as int)(item_id) == inv(item_id) + batch * (
                            output_count - c));
                            assert(batch * (output_count - c) == batch * output_count - batch * c)
                                by (nonlinear_arith);
                            assert(batch * output_count == output_count * batch) by (nonlinear_arith);
                        }
                        return None;
                    }
                    next.add_count(item_id, amount);
                    proof {
                        assert(out_count(r, item_id) == output_count);
                        assert(batch * output_count == output_count * batch) by (nonlinear_arith);
                    }
                },
            }
        }
        proof {
            assert forall|i: ItemId| #[trigger] next.spec_count(i) == inv(i) - batch * in_count(r, i) + if 0
                <= key_index(r.output, i) < k + 1 {
                batch * out_count(r, i)
            } else {
                0
            } by {
                lemma_key_index(r.output, i);
                if key_index(r.output, i) == k {
                    assert(i == item_id);
                    assert(out_count(r, item_id) == output_count);
                    assert(batch * output_count == output_count * batch) by (nonlinear_arith);
                }
            }
        }
        k = k + 1;
    }
    proof {
        assert forall|i: ItemId| #[trigger] stock(next@)(i) == apply_units(inv, r, batch as int)(i) by {
            lemma_key_index(r.output, i);
            if key_index(r.output, i) < 0 {
                assert(batch * out_count(r, i) == batch * 0);
            }
            let c = in_count(r, i);
            let o = out_count(r, i);
            assert(batch * (o - c) == batch * o - batch * c) by (nonlinear_arith);
            assert(next.spec_count(i) == inv(i) - batch * c + batch * o);
            assert(stock(next@)(i) == next.spec_count(i));
        }
        assert(stock(next@) =~= apply_units(inv, r, batch as int));
    }
    Some(next)
}

/// A recipe that can run now, with the ordering data of the search.
#[derive(Clone, Copy)]
struct Candidate {
    index: usize,
    remaining: usize,
    batch: usize,
    in_loop: bool,
    priority: isize,
    id: usize,
}

/// Search order: recipes on loops first, then larger batches, then more
/// remaining applications, then lower effective priority, then lower id.
spec fn cand_before(a: Candidate, b: Candidate) -> bool {
    if a.in_loop != b.in_loop {
        a.in_loop
    } else if a.batch != b.batch {
        a.batch > b.batch
    } else if a.remaining != b.remaining {
        a.remaining > b.remaining
    } else if a.priority != b.priority {
        a.priority < b.priority
    } else {
        a.id < b.id
    }
}

fn candidate_before(a: &Candidate, b: &Candidate) -> (r: bool)
    ensures
        r == cand_before(*a, *b),
{
    if a.in_loop != b.in_loop {
        a.in_loop
    } else if a.batch != b.batch {
        a.batch > b.batch
    } else if a.remaining != b.remaining {
        a.remaining > b.remaining
    } else if a.priority != b.priority {
        a.priority < b.priority
    } else {
        a.id < b.id
    }
}

proof fn lemma_cand_before_order(a: Candidate, b: Candidate, c: Candidate)
    ensures
        !cand_before(a, a),
        cand_before(a, b) && cand_before(b, c) ==> cand_before(a, c),
{
}

/// Stable insertion sort in search order.
fn sort_candidates(c: &Vec<Candidate>) -> (s: Vec<Candidate>)
    ensures
        s@.to_multiset() == c@.to_multiset(),
        forall|j: int, k: int| 0 <= j < k < s@.len() ==> !cand_before(s@[k], s@[j]),
{
    broadcast use vstd::seq_lib::group_to_multiset_ensures;

    let mut s: Vec<Candidate> = Vec::new();
    let mut i: usize = 0;
    while i < c.len()
        invariant
            i <= c.len(),
            s@.to_multiset() == c@.take(i as int).to_multiset(),
            forall|j: int, k: int| 0 <= j < k < s@.len() ==> !cand_before(s@[k], s@[j]),
        decreases c.len() - i,
    {
        let x = c[i];
        let mut j: usize = 0;
        while j < s.len() && !candidate_before(&x, &s[j])
            invariant
                j <= s.len(),
                forall|k: int| 0 <= k < j ==> !cand_before(x, s@[k]),
            decreases s.len() - j,
        {
            j = j + 1;
        }
        let ghost old_s = s@;
        s.insert(j, x);
        proof {
            assert(s@.remove(j as int) =~= old_s);
            assert(s@[j as int] == x);
            assert(c@.take(i + 1) =~= c@.take(i as int).push(x));
            s@.to_multiset_ensures();
            old_s.to_multiset_ensures();
            c@.take(i as int).to_multiset_ensures();
            assert(s@.remove(j as int).to_multiset() == s@.to_multiset().remove(s@[j as int]));
            assert(s@.contains(x));
            assert(s@.to_multiset().count(x) > 0);
            assert(s@.to_multiset() =~= old_s.to_multiset().insert(x));
            assert(c@.take(i as int).push(x).to_multiset() == c@.take(i as int).to_multiset().insert(x));
            assert forall|a: int, b: int| 0 <= a < b < s@.len() implies !cand_before(s@[b], s@[a]) by {
                if a < j && b == j {
                } else if a == j && b > j {
                    let y = old_s[b - 1];
                    assert(s@[b] == y);
                    if cand_before(y, x) {
                        assert(j < old_s.len());
                        assert(cand_before(x, old_s[j as int]));
                        lemma_cand_before_order(y, x, old_s[j as int]);
                        lemma_cand_before_order(y, y, y);
                    }
                } else if b < j {
                    assert(s@[a] == old_s[a] && s@[b] == old_s[b]);
                } else if a < j {
                    assert(s@[a] == old_s[a] && s@[b] == old_s[b - 1]);
                } else {
                    assert(s@[a] == old_s[a - 1] && s@[b] == old_s[b - 1]);
                }
            }
        }
        i = i + 1;
    }
    assert(c@.take(c@.len() as int) =~= c@);
    s
}

/// The batch sizes tried for a candidate, largest first: the largest
/// affordable batch, half of it, and a single application, without repeats.
fn batch_options(max_batch: usize) -> (options: Vec<usize>)
    requires
        max_batch >= 1,
    ensures
        forall|k: int| 0 <= k < options@.len() ==> 1 <= #[trigger] options@[k] <= max_batch,
        options@.len() >= 1,
        options@[0] == max_batch,
        exists|t: int| 0 <= t < options@.len() && options@[t] == 1,
{
    let mut options: Vec<usize> = Vec::new();
    options.push(max_batch);
    if max_batch > 3 {
        options.push(max_batch / 2);
    }
    if max_batch > 1 {
        options.push(1);
    }
    proof {
        if max_batch == 1 {
            assert(options@[0] == 1);
        } else {
            assert(options@[options@.len() - 1] == 1);
        }
    }
    options
}

/// Whether every remaining count is zero.
fn nothing_remaining(remaining: &Vec<(usize, usize)>) -> (b: bool)
    ensures
        b == forall|k: int| 0 <= k < remaining@.len() ==> (#[trigger] remaining@[k]).1 == 0,
{
    let mut q: usize = 0;
    while q < remaining.len()
        invariant
            q <= remaining.len(),
            forall|k: int| 0 <= k < q ==> (#[trigger] remaining@[k]).1 == 0,
        decreases remaining.len() - q,
    {
        if remaining[q].1 != 0 {
            return false;
        }
        q = q + 1;
    }
    true
}

/// Tries to carry out all remaining applications from `inventory`, choosing
/// candidates in search order and backtracking on dead ends. Every candidate
/// is also tried with a single application, so the search fails only when no
/// order of single applications carries out the remaining counts.
fn recursively_backsolve_plan(
    recipes: &Vec<Recipe>,
    in_loop_by_id: &Vec<(usize, bool)>,
    remaining: &Vec<(usize, usize)>,
    inventory: &ItemSet,
) -> (found: Option<Vec<(usize, usize)>>)
    requires
        keys_distinct(remaining@),
    ensures
        found matches Some(steps) ==> raw_plan_ok(recipes@, remaining@, stock(inventory@), steps@),
        found is None ==> !completable(recipes@, remaining@, stock(inventory@)),
    decreases sum_counts(remaining@),
{
    broadcast use vstd::seq_lib::group_to_multiset_ensures;

    if nothing_remaining(remaining) {
        proof {
            let e = Seq::<(usize, usize)>::empty();
            assert(raw_views(recipes@, e) =~= Seq::<(RecipeView, usize)>::empty());
            assert forall|id: usize| #[trigger] steps_total(raw_views(recipes@, e), id) == count_of(
                remaining@,
                id,
            ) by {
                lemma_key_index(remaining@, id);
            }
        }
        return Some(Vec::new());
    }
    proof {
        let k = choose|k: int| 0 <= k < remaining@.len() && remaining@[k].1 != 0;
        lemma_count_le_sum(remaining@, k);
    }
    let ghost inv = stock(inventory@);
    let mut candidates: Vec<Candidate> = Vec::new();
    let mut i: usize = 0;
    while i < recipes.len()
        invariant
            i <= recipes.len(),
            inv == stock(inventory@),
            forall|k: int| 0 <= k < candidates@.len() ==> cand_valid(recipes@, remaining@, inventory@, #[trigger] candidates@[k]),
            forall|j: int|
                0 <= j < i && count_of(remaining@, recipes@[j].unique_id) > 0 && inputs_available(inv, #[trigger] recipes@[j]@, 1)
                    ==> exists|k: int| 0 <= k < candidates@.len() && candidates@[k].index == j,
        decreases recipes.len() - i,
    {
        let recipe = &recipes[i];
        let ghost before = candidates@;
        let rem = lookup_count(remaining, recipe.unique_id);
        if rem != 0 {
            let max_batch = compute_max_affordable_batch(recipe, inventory);
            if max_batch != 0 {
                let batch = if max_batch < rem {
                    max_batch
                } else {
                    rem
                };
                let in_loop = match find_key(in_loop_by_id, recipe.unique_id) {
                    Some(p) => in_loop_by_id[p].1,
                    None => false,
                };
                let priority = match recipe.effective_priority {
                    Some(p) => p,
                    None => isize::MAX,
                };
                let cand = Candidate { index: i, remaining: rem, batch, in_loop, priority, id: recipe.unique_id };
                proof {
                    assert(inputs_available(stock(inventory@), recipe@, batch as int)) by {
                        assert forall|it: ItemId| batch * #[trigger] in_count(recipe@, it) <= stock(
                            inventory@,
                        )(it) by {
                            let c = in_count(recipe@, it);
                            assert(max_batch * c <= stock(inventory@)(it));
                            assert(batch * c <= max_batch * c) by (nonlinear_arith)
                                requires
                                    batch <= max_batch,
                                    c >= 0,
                            ;
                        }
                    }
                }
                candidates.push(cand);
                proof {
                    assert(candidates@[before.len() as int].index == i);
                }
            }
        }
        proof {
            assert forall|j: int|
                0 <= j < i + 1 && count_of(remaining@, recipes@[j].unique_id) > 0 && inputs_available(
                    inv,
                    #[trigger] recipes@[j]@,
                    1,
                ) implies exists|k: int| 0 <= k < candidates@.len() && candidates@[k].index == j by {
                if j < i {
                    let k = choose|k: int| 0 <= k < before.len() && before[k].index == j;
                    assert(candidates@[k] == before[k]);
                } else {
                    assert(candidates@[before.len() as int].index == i);
                }
            }
        }
        i = i + 1;
    }
    if candidates.len() == 0 {
        proof {
            if completable(recipes@, remaining@, inv) {
                lemma_first_unit(recipes@, remaining@, inv);
                let j = choose|j: usize| #[trigger] completable_from(recipes@, remaining@, inv, j);
                lemma_after_first_unit(recipes@, remaining@, inv, j);
                assert(inputs_available(inv, recipes@[j as int]@, 1));
            }
        }
        return None;
    }
    let sorted = sort_candidates(&candidates);
    let mut ci: usize = 0;
    while ci < sorted.len()
        invariant
            ci <= sorted.len(),
            keys_distinct(remaining@),
            sum_counts(remaining@) > 0,
            inv == stock(inventory@),
            sorted@.to_multiset() == candidates@.to_multiset(),
            forall|k: int| 0 <= k < candidates@.len() ==> cand_valid(recipes@, remaining@, inventory@, #[trigger] candidates@[k]),
            forall|k: int| 0 <= k < ci ==> !completable_from(recipes@, remaining@, inv, #[trigger] sorted@[k].index),
        decreases sorted.len() - ci,
    {
        let cand = sorted[ci];
        proof {
            sorted@.to_multiset_ensures();
            candidates@.to_multiset_ensures();
            assert(sorted@.contains(cand));
            assert(sorted@.to_multiset().count(cand) > 0);
            assert(candidates@.to_multiset().count(cand) > 0);
            assert(candidates@.contains(cand));
            let k = choose|k: int| 0 <= k < candidates@.len() && candidates@[k] == cand;
            assert(cand_valid(recipes@, remaining@, inventory@, candidates@[k]));
        }
        let options = batch_options(cand.batch);
        let mut ti: usize = 0;
        while ti < options.len()
            invariant
                ti <= options.len(),
                keys_distinct(remaining@),
                inv == stock(inventory@),
                cand_valid(recipes@, remaining@, inventory@, cand),
                forall|k: int| 0 <= k < options@.len() ==> 1 <= #[trigger] options@[k] <= cand.batch,
                (exists|t: int| 0 <= t < ti && options@[t] == 1) ==> !completable_from(recipes@, remaining@, inv, cand.index),
            decreases options.len() - ti,
        {
            let batch = options[ti];
            if batch != 0 && batch <= cand.remaining {
                let recipe = &recipes[cand.index];
                proof {
                    assert(inputs_available(stock(inventory@), recipe@, batch as int)) by {
                        assert forall|it: ItemId| batch * #[trigger] in_count(recipe@, it) <= stock(
                            inventory@,
                        )(it) by {
                            let c = in_count(recipe@, it);
                            assert(cand.batch * c <= stock(inventory@)(it));
                            assert(batch * c <= cand.batch * c) by (nonlinear_arith)
                                requires
                                    batch <= cand.batch,
                                    c >= 0,
                            ;
                        }
                    }
                }
                let applied = apply_recipe_batch(recipe, batch, inventory);
                if let Some(next_inventory) = applied {
                    let pos = find_key(remaining, cand.id);
                    proof {
                        lemma_key_index(remaining@, cand.id);
                    }
                    let p = pos.unwrap();
                    let mut next_remaining: Vec<(usize, usize)> = Vec::new();
                    let mut q: usize = 0;
                    while q < remaining.len()
                        invariant
                            q <= remaining.len(),
                            p < remaining.len(),
                            next_remaining@ == remaining@.take(q as int),
                        decreases remaining.len() - q,
                    {
                        let e = remaining[q];
                        next_remaining.push(e);
                        assert(remaining@.take(q + 1) =~= remaining@.take(q as int).push(e));
                        q = q + 1;
                    }
                    assert(remaining@.take(remaining@.len() as int) =~= remaining@);
                    next_remaining.set(p, (cand.id, cand.remaining - batch));
                    proof {
                        lemma_count_le_sum(remaining@, p as int);
                        lemma_sum_update(remaining@, p as int, (cand.id, (cand.remaining - batch) as usize));
                        assert(keys_distinct(next_remaining@)) by {
                            assert forall|a: int, b: int| 0 <= a < b < next_remaining@.len() implies next_remaining@[a].0
                                != next_remaining@[b].0 by {
                                assert(next_remaining@[a].0 == remaining@[a].0);
                                assert(next_remaining@[b].0 == remaining@[b].0);
                            }
                        }
                    }
                    let rest = recursively_backsolve_plan(recipes, in_loop_by_id, &next_remaining, &next_inventory);
                    if let Some(rest_steps) = rest {
                        let mut steps = rest_steps;
                        let ghost rest_seq = steps@;
                        steps.insert(0, (cand.index, batch));
                        proof {
                            lemma_prepend_step(
                                recipes@,
                                remaining@,
                                next_remaining@,
                                stock(inventory@),
                                stock(next_inventory@),
                                rest_seq,
                                cand.index,
                                batch,
                                p as int,
                            );
                            assert(steps@ =~= seq![(cand.index, batch)] + rest_seq);
                        }
                        return Some(steps);
                    }
                    proof {
                        if batch == 1 && completable_from(recipes@, remaining@, inv, cand.index) {
                            lemma_after_first_unit(recipes@, remaining@, inv, cand.index);
                            assert(next_remaining@ == remaining@.update(
                                key_index(remaining@, cand.id),
                                (cand.id, (count_of(remaining@, cand.id) - 1) as usize),
                            ));
                        }
                    }
                } else {
                    proof {
                        if batch == 1 && completable_from(recipes@, remaining@, inv, cand.index) {
                            lemma_after_first_unit(recipes@, remaining@, inv, cand.index);
                        }
                    }
                }
            }
            ti = ti + 1;
        }
        proof {
            let t = choose|t: int| 0 <= t < options@.len() && options@[t] == 1;
            assert(0 <= t < ti && options@[t] == 1);
        }
        ci = ci + 1;
    }
    proof {
        if completable(recipes@, remaining@, inv) {
            lemma_first_unit(recipes@, remaining@, inv);
            let j = choose|j: usize| #[trigger] completable_from(recipes@, remaining@, inv, j);
            lemma_after_first_unit(recipes@, remaining@, inv, j);
            assert(inputs_available(inv, recipes@[j as int]@, 1));
            let k = choose|k: int| 0 <= k < candidates@.len() && candidates@[k].index == j;
            let c = candidates@[k];
            sorted@.to_multiset_ensures();
            candidates@.to_multiset_ensures();
            assert(candidates@.contains(c));
            assert(candidates@.to_multiset().count(c) > 0);
            assert(sorted@.to_multiset().count(c) > 0);
            assert(sorted@.contains(c));
            let k2 = choose|k2: int| 0 <= k2 < sorted@.len() && sorted@[k2] == c;
            assert(!completable_from(recipes@, remaining@, inv, sorted@[k2].index));
        }
    }
    None
}

/// What the search knows of a candidate.
spec fn cand_valid(
    recipes: Seq<Recipe>,
    remaining: Seq<(usize, usize)>,
    inventory: Seq<(ItemId, usize)>,
    c: Candidate,
) -> bool {
    &&& c.index < recipes.len()
    &&& c.id == recipes[c.index as int].unique_id
    &&& c.remaining == count_of(remaining, c.id)
    &&& c.remaining > 0
    &&& 1 <= c.batch <= c.remaining
    &&& inputs_available(stock(inventory), recipes[c.index as int]@, c.batch as int)
}

/// One more step in front of a plan found for the inventory and the counts
/// that this step leaves.
proof fn lemma_prepend_step(
    recipes: Seq<Recipe>,
    remaining: Seq<(usize, usize)>,
    next_remaining: Seq<(usize, usize)>,
    inv: spec_fn(ItemId) -> int,
    next_inv: spec_fn(ItemId) -> int,
    rest: Seq<(usize, usize)>,
    index: usize,
    batch: usize,
    p: int,
)
    requires
        index < recipes.len(),
        batch >= 1,
        inputs_available(inv, recipes[index as int]@, batch as int),
        next_inv == apply_units(inv, recipes[index as int]@, batch as int),
        0 <= p < remaining.len(),
        remaining[p].0 == recipes[index as int].unique_id,
        p == key_index(remaining, recipes[index as int].unique_id),
        batch <= remaining[p].1,
        next_remaining == remaining.update(p, (remaining[p].0, (remaining[p].1 - batch) as usize)),
        raw_plan_ok(recipes, next_remaining, next_inv, rest),
    ensures
        raw_plan_ok(recipes, remaining, inv, seq![(index, batch)] + rest),
{
    let steps = seq![(index, batch)] + rest;
    let views = raw_views(recipes, steps);
    let r = recipes[index as int]@;
    assert(views[0] == (r, batch));
    assert(views.drop_first() =~= raw_views(recipes, rest));
    lemma_batch_runs(inv, r, batch as nat);
    assert forall|k: int| 0 <= k < steps.len() implies (#[trigger] steps[k]).0 < recipes.len()
        && steps[k].1 >= 1 by {
        if k > 0 {
            assert(steps[k] == rest[k - 1]);
        }
    }
    assert forall|id: usize| #[trigger] steps_total(views, id) == count_of(remaining, id) by {
        lemma_key_index_update_same_key(
            remaining,
            p,
            (remaining[p].0, (remaining[p].1 - batch) as usize),
            id,
        );
        assert(steps_total(raw_views(recipes, rest), id) == count_of(next_remaining, id));
        lemma_key_index(remaining, id);
        assert(steps_total(views, id) == (if views[0].0.unique_id == id {
            batch as nat
        } else {
            0nat
        }) + steps_total(views.drop_first(), id));
    }
}

/// Converts solved recipe usage totals into an execution-safe sequence of
/// recipe batches: applying the steps in order, every single application finds
/// its inputs in the inventory of that moment, and each recipe is applied as
/// often as its usage says.
pub fn build_executable_plan_from_recipe_usage(
    recipes: &Vec<Recipe>,
    recipe_values: &Vec<(usize, i64)>,
    starting_items: &ItemSet,
) -> (result: Result<Vec<(Recipe, usize)>, String>)
    ensures
        (exists|j: int| 0 <= j < recipes.len() && value_of(recipe_values@, #[trigger] recipes@[j].unique_id) < 0)
            ==> result is Err,
        (forall|j: int| 0 <= j < recipes.len() ==> value_of(recipe_values@, #[trigger] recipes@[j].unique_id) >= 0)
            && plannable(recipes@, recipe_values@, stock(starting_items@)) ==> result is Ok,
        result matches Ok(plan) ==> {
            &&& identity_fixes_content(recipes@) ==> plan_runs(stock(starting_items@), plan_views(plan@))
            &&& forall|j: int| 0 <= j < recipes.len() ==> steps_total(plan_views(plan@), #[trigger] recipes@[j].unique_id)
                == usage_count(value_of(recipe_values@, recipes@[j].unique_id))
            &&& forall|id: usize| #[trigger] steps_total(plan_views(plan@), id) > 0 ==> exists|j: int|
                0 <= j < recipes.len() && recipes@[j].unique_id == id
            &&& forall|k: int| 0 <= k < plan@.len() ==> (#[trigger] plan@[k]).1 >= 1 && exists|j: int|
                0 <= j < recipes.len() && plan@[k].0@ == recipes@[j]@
            &&& forall|k: int| 0 <= k < plan@.len() - 1 ==> (#[trigger] plan@[k]).0.unique_id != plan@[k + 1].0.unique_id
            &&& exists|raw: Seq<(RecipeView, usize)>|
                #[trigger] batches_affordable(stock(starting_items@), raw) && plan_views(plan@) == merge_steps(raw)
        },
{
    let mut remaining: Vec<(usize, usize)> = Vec::new();
    let mut i: usize = 0;
    while i < recipes.len()
        invariant
            i <= recipes.len(),
            forall|j: int| 0 <= j < i ==> value_of(recipe_values@, #[trigger] recipes@[j].unique_id) >= 0,
            forall|id: usize| #[trigger] count_of(remaining@, id) == if seen_id(recipes@, i as int, id) {
                usage_count(value_of(recipe_values@, id))
            } else {
                0
            },
            keys_distinct(remaining@),
        decreases recipes.len() - i,
    {
        let recipe = &recipes[i];
        let raw_value = lookup_value(recipe_values, recipe.unique_id);
        if raw_value < 0 {
            let mut message = String::from_str("Solver produced a negative usage count for recipe '");
            let text = recipe.describe();
            message.append(text.as_str());
            message.append("'");
            return Err(message);
        }
        let count: usize = if raw_value as u64 > usize::MAX as u64 {
            usize::MAX
        } else {
            raw_value as usize
        };
        let ghost before = remaining@;
        if count > 0 {
            match find_key(&remaining, recipe.unique_id) {
                Some(p) => {
                    remaining.set(p, (recipe.unique_id, count));
                },
                None => {
                    remaining.push((recipe.unique_id, count));
                },
            }
        }
        proof {
            let id0 = recipe.unique_id;
            lemma_key_index(before, id0);
            assert(keys_distinct(remaining@)) by {
                assert forall|a: int, b: int| 0 <= a < b < remaining@.len() implies remaining@[a].0 != remaining@[b].0 by {
                    if a < before.len() && b < before.len() {
                        assert(remaining@[a].0 == before[a].0 && remaining@[b].0 == before[b].0);
                    } else if a < before.len() {
                        assert(remaining@[a].0 == before[a].0);
                    }
                }
            }
            assert(count == usage_count(value_of(recipe_values@, id0)));
            assert forall|id: usize| #[trigger] count_of(remaining@, id) == if seen_id(recipes@, i + 1, id) {
                usage_count(value_of(recipe_values@, id))
            } else {
                0
            } by {
                lemma_seen_step(recipes@, i as int, id);
                lemma_key_index(before, id);
                lemma_key_index(before, id0);
                if count > 0 {
                    let p = key_index(before, id0);
                    if p >= 0 {
                        lemma_key_index_update_same_key(before, p, (id0, count), id);
                        assert(remaining@ == before.update(p, (id0, count)));
                        if id == id0 {
                            assert(remaining@[p] == (id0, count));
                        } else {
                            let q = key_index(before, id);
                            if q >= 0 {
                                assert(q != p);
                                assert(remaining@[q] == before[q]);
                            }
                        }
                    } else {
                        assert(remaining@ == before.push((id0, count)));
                        lemma_key_index_push(before, (id0, count), id);
                        if id == id0 {
                            assert(remaining@[before.len() as int] == (id0, count));
                        } else {
                            let q = key_index(before, id);
                            if q >= 0 {
                                assert(remaining@[q] == before[q]);
                            }
                        }
                    }
                } else {
                    assert(remaining@ == before);
                }
                assert(count_of(remaining@, id) == (if id == id0 && count > 0 {
                    count as nat
                } else {
                    count_of(before, id)
                }));
                assert(count_of(before, id) == if seen_id(recipes@, i as int, id) {
                    usage_count(value_of(recipe_values@, id))
                } else {
                    0
                });
                if id == id0 {
                    assert(seen_id(recipes@, i + 1, id));
                    assert(usage_count(value_of(recipe_values@, id)) == count);
                } else {
                    assert(seen_id(recipes@, i + 1, id) == seen_id(recipes@, i as int, id));
                }
            }
        }
        i = i + 1;
    }
    let (in_loop_by_id, _loops) = detect_recipe_cycles(recipes);
    let found = recursively_backsolve_plan(recipes, &in_loop_by_id, &remaining, starting_items);
    match found {
        Some(raw) => {
            let plan = merge_raw_steps(recipes, &raw);
            proof {
                let views = raw_views(recipes@, raw@);
                assert forall|id: usize| #[trigger] steps_total(views, id) <= usize::MAX by {
                    lemma_key_index(remaining@, id);
                }
                lemma_merge_steps(stock(starting_items@), views);
                if identity_fixes_content(recipes@) {
                    assert forall|a: int, b: int|
                        0 <= a < views.len() && 0 <= b < views.len() && #[trigger] views[a].0.unique_id
                            == #[trigger] views[b].0.unique_id implies same_effect(views[a].0, views[b].0) by {
                        assert(views[a].0 == recipes@[raw@[a].0 as int]@);
                        assert(views[b].0 == recipes@[raw@[b].0 as int]@);
                    }
                }
                assert forall|id: usize| #[trigger] steps_total(plan_views(plan@), id) > 0 implies exists|j: int|
                    0 <= j < recipes.len() && recipes@[j].unique_id == id by {
                    assert(count_of(remaining@, id) > 0);
                }
            }
            Ok(plan)
        },
        None => {
            proof {
                if plannable(recipes@, recipe_values@, stock(starting_items@)) {
                    let units = choose|units: Seq<usize>|
                        units_run(recipes@, stock(starting_items@), units) && forall|id: usize|
                            #[trigger] units_total(recipes@, units, id) == planned_count(recipes@, recipe_values@, id);
                    assert forall|id: usize| #[trigger] units_total(recipes@, units, id) == count_of(remaining@, id) by {
                        assert(units_total(recipes@, units, id) == planned_count(recipes@, recipe_values@, id));
                    }
                    assert(completable(recipes@, remaining@, stock(starting_items@)));
                }
            }
            let mut message = String::from_str(
                "No valid execution order could satisfy all solved usages. Remaining blocked recipes: ",
            );
            let mut first = true;
            let mut j: usize = 0;
            while j < recipes.len()
                decreases recipes.len() - j,
            {
                let rem = lookup_count(&remaining, recipes[j].unique_id);
                if rem > 0 {
                    if !first {
                        message.append(", ");
                    }
                    first = false;
                    let text = recipes[j].describe();
                    message.append(text.as_str());
                    message.append(" (remaining ");
                    let digits = decimal_text(rem);
                    message.append(digits.as_str());
                    message.append(")");
                }
                j = j + 1;
            }
            Err(message)
        },
    }
}

/// Builds the plan from the raw steps, merging each step into the previous one
/// when both apply a recipe of the same identity.
#[verifier::rlimit(40)]
fn merge_raw_steps(recipes: &Vec<Recipe>, raw: &Vec<(usize, usize)>) -> (plan: Vec<(Recipe, usize)>)
    requires
        forall|k: int| 0 <= k < raw@.len() ==> (#[trigger] raw@[k]).0 < recipes.len() && raw@[k].1 >= 1,
        forall|id: usize| #[trigger] steps_total(raw_views(recipes@, raw@), id) <= usize::MAX,
    ensures
        plan_views(plan@) == merge_steps(raw_views(recipes@, raw@)),
        forall|k: int| 0 <= k < plan@.len() ==> (#[trigger] plan@[k]).1 >= 1 && exists|j: int|
            0 <= j < recipes.len() && plan@[k].0@ == recipes@[j]@,
        forall|k: int| 0 <= k < plan@.len() - 1 ==> (#[trigger] plan@[k]).0.unique_id != plan@[k + 1].0.unique_id,
{
    let ghost all = raw_views(recipes@, raw@);
    let mut plan: Vec<(Recipe, usize)> = Vec::new();
    let mut i: usize = 0;
    while i < raw.len()
        invariant
            i <= raw.len(),
            all == raw_views(recipes@, raw@),
            forall|k: int| 0 <= k < raw@.len() ==> (#[trigger] raw@[k]).0 < recipes.len() && raw@[k].1 >= 1,
            forall|id: usize| #[trigger] steps_total(all, id) <= usize::MAX,
            plan_views(plan@) == merge_steps(all.take(i as int)),
            forall|k: int| 0 <= k < plan@.len() ==> (#[trigger] plan@[k]).1 >= 1 && exists|j: int|
                0 <= j < recipes.len() && plan@[k].0@ == recipes@[j]@,
            forall|k: int| 0 <= k < plan@.len() - 1 ==> (#[trigger] plan@[k]).0.unique_id != plan@[k + 1].0.unique_id,
        decreases raw.len() - i,
    {
        let (index, batch) = raw[i];
        let recipe = &recipes[index];
        let ghost pre = all.take(i as int);
        let ghost m = merge_steps(pre);
        proof {
            assert(all.take(i + 1).drop_last() =~= pre);
            assert(all.take(i + 1).last() == (recipe@, batch));
        }
        let n = plan.len();
        let mut merged_into_last = false;
        if n > 0 {
            let last_same = plan[n - 1].0.unique_id == recipe.unique_id;
            if last_same {
                let (last_recipe, last_batch) = plan.pop().unwrap();
                proof {
                    assert(plan_views(plan@.push((last_recipe, last_batch)))[n - 1] == m.last());
                    assert(m.len() > 0);
                    crate::plan_semantics::lemma_total_ge_last(m);
                    lemma_merge_prefix_totals(all, i as int);
                    assert(m.last().1 + batch <= steps_total(all.take(i + 1), recipe.unique_id));
                    lemma_take_total_le(all, i + 1, recipe.unique_id);
                }
                plan.push((last_recipe, last_batch + batch));
                merged_into_last = true;
            }
        }
        if !merged_into_last {
            plan.push((recipe.clone(), batch));
        }
        proof {
            assert(plan_views(plan@) =~= merge_steps(all.take(i + 1)));
            assert(exists|j: int| 0 <= j < recipes.len() && recipe@ == recipes@[j]@) by {
                assert(recipes@[index as int]@ == recipe@);
            }
        }
        i = i + 1;
    }
    assert(all.take(raw@.len() as int) =~= all);
    plan
}

/// The totals of a prefix are at most those of the whole plan.
proof fn lemma_take_total_le(all: Seq<(RecipeView, usize)>, n: int, id: usize)
    requires
        0 <= n <= all.len(),
    ensures
        steps_total(all.take(n), id) <= steps_total(all, id),
    decreases all.len() - n,
{
    if n < all.len() {
        lemma_take_total_le(all, n + 1, id);
        assert(all.take(n + 1) =~= all.take(n).push(all[n]));
        crate::plan_semantics::lemma_total_push(all.take(n), all[n], id);
    } else {
        assert(all.take(n) =~= all);
    }
}

/// Merging a prefix keeps its totals.
proof fn lemma_merge_prefix_totals(all: Seq<(RecipeView, usize)>, n: int)
    requires
        0 <= n < all.len(),
        forall|id: usize| #[trigger] steps_total(all, id) <= usize::MAX,
    ensures
        forall|id: usize| #[trigger] steps_total(merge_steps(all.take(n)), id) == steps_total(all.take(n), id),
        forall|id: usize| #[trigger] steps_total(all.take(n + 1), id) == steps_total(all.take(n), id) + if all[n].0.unique_id == id {
            all[n].1 as nat
        } else {
            0nat
        },
{
    assert forall|id: usize| #[trigger] steps_total(all.take(n), id) <= usize::MAX by {
        lemma_take_total_le(all, n, id);
    }
    lemma_merge_steps(|i: ItemId| 0int, all.take(n));
    assert forall|id: usize| #[trigger] steps_total(all.take(n + 1), id) == steps_total(all.take(n), id)
        + if all[n].0.unique_id == id {
        all[n].1 as nat
    } else {
        0nat
    } by {
        assert(all.take(n + 1) =~= all.take(n).push(all[n]));
        crate::plan_semantics::lemma_total_push(all.take(n), all[n], id);
    }
}

} // verus!
