//! What it means to carry out recipes on an inventory: each application of a
//! recipe needs its inputs present, consumes them and adds its outputs.
use vstd::prelude::*;
use crate::crafting_domain::{ItemId, Recipe, RecipeView};
use crate::keyed_entries::count_of;

verus! {

/// An inventory as item counts.
pub open spec fn stock(s: Seq<(ItemId, usize)>) -> spec_fn(ItemId) -> int {
    |i: ItemId| count_of(s, i) as int
}

pub open spec fn in_count(r: RecipeView, i: ItemId) -> int {
    count_of(r.input, i) as int
}

pub open spec fn out_count(r: RecipeView, i: ItemId) -> int {
    count_of(r.output, i) as int
}

/// The inventory after `n` applications of `r`.
pub open spec fn apply_units(inv: spec_fn(ItemId) -> int, r: RecipeView, n: int) -> spec_fn(ItemId) -> int {
    |i: ItemId| inv(i) + n * (out_count(r, i) - in_count(r, i))
}

/// The inputs of `n` applications are all present at once.
pub open spec fn inputs_available(inv: spec_fn(ItemId) -> int, r: RecipeView, n: int) -> bool {
    forall|i: ItemId| n * #[trigger] in_count(r, i) <= inv(i)
}

/// `n` applications of `r`, one after the other, each find their inputs.
pub open spec fn can_run_units(inv: spec_fn(ItemId) -> int, r: RecipeView, n: nat) -> bool
    decreases n,
{
    if n == 0 {
        true
    } else {
        inputs_available(inv, r, 1) && can_run_units(apply_units(inv, r, 1), r, (n - 1) as nat)
    }
}

/// Two recipe views with the same identity and the same effect on an inventory.
pub open spec fn same_effect(a: RecipeView, b: RecipeView) -> bool {
    a.unique_id == b.unique_id && a.input == b.input && a.output == b.output
}

/// A plan step: a recipe applied a number of times in a row.
pub open spec fn plan_runs(inv: spec_fn(ItemId) -> int, steps: Seq<(RecipeView, usize)>) -> bool
    decreases steps.len(),
{
    if steps.len() == 0 {
        true
    } else {
        can_run_units(inv, steps[0].0, steps[0].1 as nat) && plan_runs(
            apply_units(inv, steps[0].0, steps[0].1 as int),
            steps.drop_first(),
        )
    }
}

/// Each step finds the inputs for its whole batch at once in the inventory
/// that the steps before it leave.
pub open spec fn batches_affordable(inv: spec_fn(ItemId) -> int, steps: Seq<(RecipeView, usize)>) -> bool
    decreases steps.len(),
{
    if steps.len() == 0 {
        true
    } else {
        inputs_available(inv, steps[0].0, steps[0].1 as int) && batches_affordable(
            apply_units(inv, steps[0].0, steps[0].1 as int),
            steps.drop_first(),
        )
    }
}

/// The inventory after carrying out all steps.
pub open spec fn plan_end(inv: spec_fn(ItemId) -> int, steps: Seq<(RecipeView, usize)>) -> spec_fn(
    ItemId,
) -> int
    decreases steps.len(),
{
    if steps.len() == 0 {
        inv
    } else {
        plan_end(apply_units(inv, steps[0].0, steps[0].1 as int), steps.drop_first())
    }
}

/// Number of applications of recipes with identity `id` in a plan.
pub open spec fn steps_total(steps: Seq<(RecipeView, usize)>, id: usize) -> nat
    decreases steps.len(),
{
    if steps.len() == 0 {
        0
    } else {
        (if steps[0].0.unique_id == id {
            steps[0].1 as nat
        } else {
            0nat
        }) + steps_total(steps.drop_first(), id)
    }
}

/// The views of the steps of a plan.
pub open spec fn plan_views(plan: Seq<(Recipe, usize)>) -> Seq<(RecipeView, usize)> {
    plan.map_values(|p: (Recipe, usize)| (p.0@, p.1))
}

/// Merges each step into the previous one when both apply a recipe of the
/// same identity; the merged step keeps the earlier recipe.
pub open spec fn merge_steps(r: Seq<(RecipeView, usize)>) -> Seq<(RecipeView, usize)>
    decreases r.len(),
{
    if r.len() == 0 {
        Seq::empty()
    } else {
        let m = merge_steps(r.drop_last());
        let s = r.last();
        if m.len() > 0 && m.last().0.unique_id == s.0.unique_id {
            m.update(m.len() - 1, (m.last().0, (m.last().1 + s.1) as usize))
        } else {
            m.push(s)
        }
    }
}

pub proof fn lemma_apply_zero(inv: spec_fn(ItemId) -> int, r: RecipeView)
    ensures
        apply_units(inv, r, 0) == inv,
{
    assert(apply_units(inv, r, 0) =~= inv);
}

pub proof fn lemma_apply_compose(inv: spec_fn(ItemId) -> int, r: RecipeView, a: int, b: int)
    ensures
        apply_units(apply_units(inv, r, a), r, b) == apply_units(inv, r, a + b),
{
    assert forall|i: ItemId| #[trigger] apply_units(apply_units(inv, r, a), r, b)(i) == apply_units(
        inv,
        r,
        a + b,
    )(i) by {
        let d = out_count(r, i) - in_count(r, i);
        assert(a * d + b * d == (a + b) * d) by (nonlinear_arith);
    }
    assert(apply_units(apply_units(inv, r, a), r, b) =~= apply_units(inv, r, a + b));
}

/// Recipes with the same effect act alike.
pub proof fn lemma_same_effect(inv: spec_fn(ItemId) -> int, a: RecipeView, b: RecipeView, n: nat)
    requires
        same_effect(a, b),
    ensures
        apply_units(inv, a, n as int) == apply_units(inv, b, n as int),
        can_run_units(inv, a, n) == can_run_units(inv, b, n),
    decreases n,
{
    assert(apply_units(inv, a, n as int) =~= apply_units(inv, b, n as int));
    assert(apply_units(inv, a, 1) =~= apply_units(inv, b, 1));
    if inputs_available(inv, a, 1) {
        assert forall|i: ItemId| 1 * #[trigger] in_count(b, i) <= inv(i) by {
            assert(1 * in_count(a, i) <= inv(i));
        }
    }
    if inputs_available(inv, b, 1) {
        assert forall|i: ItemId| 1 * #[trigger] in_count(a, i) <= inv(i) by {
            assert(1 * in_count(b, i) <= inv(i));
        }
    }
    if n > 0 {
        lemma_same_effect(apply_units(inv, a, 1), a, b, (n - 1) as nat);
    }
}

/// Inputs present for a whole batch at once let the batch run one application at a time.
pub proof fn lemma_batch_runs(inv: spec_fn(ItemId) -> int, r: RecipeView, n: nat)
    requires
        inputs_available(inv, r, n as int),
    ensures
        can_run_units(inv, r, n),
    decreases n,
{
    if n > 0 {
        assert forall|i: ItemId| 1 * #[trigger] in_count(r, i) <= inv(i) by {
            let c = in_count(r, i);
            assert(n * c <= inv(i));
            assert(c <= n * c) by (nonlinear_arith)
                requires
                    c >= 0,
                    n >= 1,
            ;
        }
        let next = apply_units(inv, r, 1);
        assert forall|i: ItemId| (n - 1) * #[trigger] in_count(r, i) <= next(i) by {
            let c = in_count(r, i);
            assert(n * c <= inv(i));
            assert((n - 1) * c == n * c - c) by (nonlinear_arith);
            assert(out_count(r, i) >= 0);
        }
        lemma_batch_runs(next, r, (n - 1) as nat);
    }
}

/// Running `a + b` applications is running `a`, then `b`.
pub proof fn lemma_runs_split(inv: spec_fn(ItemId) -> int, r: RecipeView, a: nat, b: nat)
    ensures
        can_run_units(inv, r, a + b) == (can_run_units(inv, r, a) && can_run_units(
            apply_units(inv, r, a as int),
            r,
            b,
        )),
    decreases a,
{
    if a == 0 {
        lemma_apply_zero(inv, r);
    } else {
        let next = apply_units(inv, r, 1);
        lemma_runs_split(next, r, (a - 1) as nat, b);
        lemma_apply_compose(inv, r, 1, a - 1);
        assert((a + b - 1) as nat == (a - 1 + b) as nat);
    }
}

/// Carrying out a plan extended by one step.
pub proof fn lemma_plan_push(
    inv: spec_fn(ItemId) -> int,
    steps: Seq<(RecipeView, usize)>,
    s: (RecipeView, usize),
)
    ensures
        plan_runs(inv, steps.push(s)) == (plan_runs(inv, steps) && can_run_units(
            plan_end(inv, steps),
            s.0,
            s.1 as nat,
        )),
        plan_end(inv, steps.push(s)) == apply_units(plan_end(inv, steps), s.0, s.1 as int),
    decreases steps.len(),
{
    let t = steps.push(s);
    assert(t[0] == if steps.len() == 0 { s } else { steps[0] });
    if steps.len() == 0 {
        assert(t.drop_first() =~= Seq::<(RecipeView, usize)>::empty());
        assert(plan_runs(apply_units(inv, s.0, s.1 as int), t.drop_first()));
        assert(plan_end(apply_units(inv, s.0, s.1 as int), t.drop_first()) == apply_units(inv, s.0, s.1 as int));
    } else {
        assert(t.drop_first() =~= steps.drop_first().push(s));
        lemma_plan_push(apply_units(inv, steps[0].0, steps[0].1 as int), steps.drop_first(), s);
    }
}

/// Identity totals of a plan extended by one step.
pub proof fn lemma_total_push(steps: Seq<(RecipeView, usize)>, s: (RecipeView, usize), id: usize)
    ensures
        steps_total(steps.push(s), id) == steps_total(steps, id) + if s.0.unique_id == id {
            s.1 as nat
        } else {
            0nat
        },
    decreases steps.len(),
{
    let t = steps.push(s);
    assert(t[0] == if steps.len() == 0 { s } else { steps[0] });
    if steps.len() == 0 {
        assert(t.drop_first() =~= Seq::<(RecipeView, usize)>::empty());
        assert(steps_total(t.drop_first(), id) == 0);
    } else {
        assert(t.drop_first() =~= steps.drop_first().push(s));
        lemma_total_push(steps.drop_first(), s, id);
    }
}

/// The batch of a merged step never exceeds the plan total of its recipe.
pub proof fn lemma_total_ge_last(steps: Seq<(RecipeView, usize)>)
    requires
        steps.len() > 0,
    ensures
        steps.last().1 <= steps_total(steps, steps.last().0.unique_id),
{
    let m = steps.drop_last();
    assert(m.push(steps.last()) =~= steps);
    lemma_total_push(m, steps.last(), steps.last().0.unique_id);
}

/// Steps of one identity apply recipes with the same effect.
pub open spec fn ids_fix_effect(r: Seq<(RecipeView, usize)>) -> bool {
    forall|i: int, j: int|
        0 <= i < r.len() && 0 <= j < r.len() && #[trigger] r[i].0.unique_id == #[trigger] r[j].0.unique_id
            ==> same_effect(r[i].0, r[j].0)
}

/// Merging adjacent steps keeps how often each identity is applied, and each
/// merged step applies a recipe of the plan; where steps of one identity
/// apply recipes with the same effect, it changes neither whether the plan
/// runs nor where it ends.
pub proof fn lemma_merge_steps(inv: spec_fn(ItemId) -> int, r: Seq<(RecipeView, usize)>)
    requires
        forall|id: usize| #[trigger] steps_total(r, id) <= usize::MAX,
    ensures
        forall|id: usize| #[trigger] steps_total(merge_steps(r), id) == steps_total(r, id),
        forall|k: int| 0 <= k < merge_steps(r).len() ==> exists|q: int| 0 <= q < r.len() && #[trigger] merge_steps(r)[k].0 == r[q].0,
        ids_fix_effect(r) ==> plan_runs(inv, merge_steps(r)) == plan_runs(inv, r) && plan_end(inv, merge_steps(r))
            == plan_end(inv, r),
    decreases r.len(),
{
    if r.len() > 0 {
        let w = r.drop_last();
        let s = r.last();
        assert(w.push(s) =~= r);
        assert forall|id: usize| #[trigger] steps_total(w, id) <= usize::MAX by {
            lemma_total_push(w, s, id);
        }
        lemma_merge_steps(inv, w);
        let m = merge_steps(w);
        lemma_plan_push(inv, w, s);
        if ids_fix_effect(r) {
            assert(ids_fix_effect(w)) by {
                assert forall|i: int, j: int|
                    0 <= i < w.len() && 0 <= j < w.len() && #[trigger] w[i].0.unique_id == #[trigger] w[j].0.unique_id
                        implies same_effect(w[i].0, w[j].0) by {
                    assert(w[i] == r[i] && w[j] == r[j]);
                }
            }
        }
        if m.len() > 0 && m.last().0.unique_id == s.0.unique_id {
            let mm = m.drop_last();
            let t = m.last();
            assert(mm.push(t) =~= m);
            lemma_total_ge_last(m);
            lemma_total_push(w, s, s.0.unique_id);
            let merged_step = (t.0, (t.1 + s.1) as usize);
            assert(merge_steps(r) =~= mm.push(merged_step));
            assert forall|id: usize| #[trigger] steps_total(merge_steps(r), id) == steps_total(r, id) by {
                lemma_total_push(mm, t, id);
                lemma_total_push(mm, merged_step, id);
                lemma_total_push(w, s, id);
            }
            assert forall|k: int| 0 <= k < merge_steps(r).len() implies exists|q: int|
                0 <= q < r.len() && #[trigger] merge_steps(r)[k].0 == r[q].0 by {
                assert(merge_steps(r)[k].0 == m[k].0);
                let q = choose|q: int| 0 <= q < w.len() && #[trigger] m[k].0 == w[q].0;
                assert(r[q] == w[q]);
            }
            if ids_fix_effect(r) {
                let q = choose|q: int| 0 <= q < w.len() && #[trigger] m[m.len() - 1].0 == w[q].0;
                assert(r[q] == w[q]);
                assert(r[r.len() - 1] == s);
                assert(same_effect(t.0, s.0));
                lemma_plan_push(inv, mm, t);
                lemma_plan_push(inv, mm, merged_step);
                let e = plan_end(inv, mm);
                lemma_runs_split(e, t.0, t.1 as nat, s.1 as nat);
                lemma_apply_compose(e, t.0, t.1 as int, s.1 as int);
                lemma_same_effect(apply_units(e, t.0, t.1 as int), t.0, s.0, s.1 as nat);
            }
        } else {
            lemma_plan_push(inv, m, s);
            assert forall|id: usize| #[trigger] steps_total(merge_steps(r), id) == steps_total(r, id) by {
                lemma_total_push(m, s, id);
                lemma_total_push(w, s, id);
            }
            assert(merge_steps(r) =~= m.push(s));
            assert forall|k: int| 0 <= k < merge_steps(r).len() implies exists|q: int|
                0 <= q < r.len() && #[trigger] merge_steps(r)[k].0 == r[q].0 by {
                if k < m.len() {
                    assert(merge_steps(r)[k].0 == m[k].0);
                    let q = choose|q: int| 0 <= q < w.len() && #[trigger] m[k].0 == w[q].0;
                    assert(r[q] == w[q]);
                } else {
                    assert(merge_steps(r)[k] == r[r.len() - 1]);
                }
            }
        }
    }
}

} // verus!
