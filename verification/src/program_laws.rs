//! What the integer programs mean: evaluated at any assignment of their
//! variables, the rows and the objective give the final counts that the
//! corresponding usage produces, and the bounds admit exactly the usages that
//! hold the disabled identities at zero.
use vstd::prelude::*;
use crate::crafting_domain::{ItemId, Recipe};
use crate::crafting_solver::{final_count, flow, net_change, usage_from};
use crate::integer_programs::{
    capped_bounds, item_rows, flow_list, flow_terms, free_bounds, lemma_last_pos, last_pos, negated_flow_terms, scaled, var_positions,
};
use crate::keyed_entries::{count_of, has_key, key_index, lemma_key_index, lemma_put, put, value_of};

verus! {

/// `Σ coefficient · x[variable]` over the terms.
pub open spec fn term_sum(t: Seq<(usize, i32)>, x: Seq<i32>) -> int
    decreases t.len(),
{
    if t.len() == 0 {
        0
    } else {
        term_sum(t.drop_last(), x) + t.last().1 as int * x[t.last().0 as int] as int
    }
}

/// The value of `constant + Σ coefficient · variable` at the assignment `x`.
pub open spec fn linear_value(t: (Seq<(usize, i32)>, i32), x: Seq<i32>) -> int {
    t.1 as int + term_sum(t.0, x)
}

/// Each variable lies within its bounds.
pub open spec fn within_bounds(bounds: Seq<(i32, i32)>, x: Seq<i32>) -> bool {
    &&& x.len() == bounds.len()
    &&& forall|k: int| 0 <= k < x.len() ==> bounds[k].0 <= #[trigger] x[k] <= bounds[k].1
}

/// Every count of `item` in the recipes fits in an `i32`.
pub open spec fn counts_fit_i32(recipes: Seq<Recipe>, item: ItemId) -> bool {
    forall|j: int| 0 <= j < recipes.len() ==> count_of((#[trigger] recipes[j]).output@, item) <= i32::MAX && count_of(
        recipes[j].input@,
        item,
    ) <= i32::MAX
}

proof fn lemma_term_sum_append(a: Seq<(usize, i32)>, b: Seq<(usize, i32)>, x: Seq<i32>)
    ensures
        term_sum(a + b, x) == term_sum(a, x) + term_sum(b, x),
    decreases b.len(),
{
    if b.len() == 0 {
        assert(a + b =~= a);
    } else {
        lemma_term_sum_append(a, b.drop_last(), x);
        assert((a + b).drop_last() =~= a + b.drop_last());
        assert((a + b).last() == b.last());
    }
}

proof fn lemma_term_sum_scaled(v: usize, c: int, x: Seq<i32>)
    requires
        -i32::MAX <= c <= 2 * (i32::MAX as int),
    ensures
        term_sum(scaled(v, c), x) == c * x[v as int] as int,
{
    let s = scaled(v, c);
    let xv = x[v as int] as int;
    if c <= i32::MAX {
        assert(s.drop_last() =~= Seq::<(usize, i32)>::empty());
        assert(s.last() == (v, c as i32));
        assert((c as i32) as int == c);
        assert(term_sum(s, x) == term_sum(s.drop_last(), x) + (c as i32) as int * xv);
    } else {
        let t = s.drop_last();
        assert(t =~= seq![(v, i32::MAX)]);
        assert(t.drop_last() =~= Seq::<(usize, i32)>::empty());
        assert(t.last() == (v, i32::MAX));
        assert(term_sum(t, x) == term_sum(t.drop_last(), x) + (i32::MAX as int) * xv);
        assert(s.last() == (v, (c - i32::MAX) as i32));
        assert(((c - i32::MAX) as i32) as int == c - i32::MAX);
        assert(term_sum(s, x) == term_sum(t, x) + (c - i32::MAX) * xv);
        assert((i32::MAX as int) * xv + (c - i32::MAX) * xv == c * xv) by (nonlinear_arith);
    }
}

proof fn lemma_value_put(s: Seq<(usize, i64)>, k: usize, v: i64, q: usize)
    ensures
        value_of(put(s, k, v), q) == if q == k { v as int } else { value_of(s, q) },
{
    lemma_put(s, k, v, q);
    lemma_key_index(s, q);
    lemma_key_index(put(s, k, v), q);
}

/// The usage built from an assignment gives every recipe the value of its
/// variable (recipes of one identity share a variable).
pub proof fn lemma_usage_from(recipes: Seq<Recipe>, x: Seq<i32>, n: int)
    requires
        0 <= n <= recipes.len(),
        x.len() == recipes.len(),
    ensures
        forall|j: int| 0 <= j < n ==> value_of(usage_from(recipes, var_positions(recipes), x, n), (#[trigger] recipes[j]).unique_id)
            == x[var_positions(recipes)[j] as int] as int,
    decreases n,
{
    let vp = var_positions(recipes);
    if n > 0 {
        lemma_usage_from(recipes, x, n - 1);
        let prev = usage_from(recipes, vp, x, n - 1);
        let id = recipes[n - 1].unique_id;
        assert forall|j: int| 0 <= j < n implies value_of(usage_from(recipes, vp, x, n), (#[trigger] recipes[j]).unique_id)
            == x[vp[j] as int] as int by {
            lemma_value_put(prev, id, x[vp[n - 1] as int] as i64, recipes[j].unique_id);
            if recipes[j].unique_id == id {
                assert(vp[j] == vp[n - 1]);
            }
        }
    }
}

/// The flow terms of the first `n` recipes, evaluated at `x`, give the flow of
/// `item` under the usage that `x` stands for (negated when `negate`).
proof fn lemma_flow_list_value(recipes: Seq<Recipe>, item: ItemId, negate: bool, x: Seq<i32>, n: int)
    requires
        0 <= n <= recipes.len(),
        x.len() == recipes.len(),
        counts_fit_i32(recipes, item),
    ensures
        term_sum(flow_list(recipes, item, negate, n), x) == (if negate { -1int } else { 1int }) * flow(
            recipes.take(n),
            usage_from(recipes, var_positions(recipes), x, recipes.len() as int),
            item,
        ),
    decreases n,
{
    let u = usage_from(recipes, var_positions(recipes), x, recipes.len() as int);
    let sign: int = if negate { -1int } else { 1int };
    if n == 0 {
        assert(recipes.take(0).len() == 0);
    } else {
        lemma_flow_list_value(recipes, item, negate, x, n - 1);
        lemma_usage_from(recipes, x, recipes.len() as int);
        crate::integer_programs::lemma_positions_within(recipes);
        let vp = var_positions(recipes);
        let v = vp[n - 1];
        let r = recipes[n - 1];
        let out = count_of(r.output@, item) as i32 as int;
        let inp = count_of(r.input@, item) as i32 as int;
        assert(out == count_of(r.output@, item) && inp == count_of(r.input@, item));
        let xv = x[v as int] as int;
        let prev = flow_list(recipes, item, negate, n - 1);
        assert(v == vp[n - 1]);
        assert(flow_list(recipes, item, negate, n) == if negate {
            prev + scaled(v, -out) + scaled(v, inp)
        } else {
            prev + seq![(v, out as i32)] + scaled(v, -inp)
        });
        if negate {
            lemma_term_sum_append(prev + scaled(v, -out), scaled(v, inp), x);
            lemma_term_sum_append(prev, scaled(v, -out), x);
            lemma_term_sum_scaled(v, -out, x);
            lemma_term_sum_scaled(v, inp, x);
        } else {
            lemma_term_sum_append(prev + seq![(v, out as i32)], scaled(v, -inp), x);
            lemma_term_sum_append(prev, seq![(v, out as i32)], x);
            let one = seq![(v, out as i32)];
            assert(one.drop_last() =~= Seq::<(usize, i32)>::empty());
            assert(one.last() == (v, out as i32));
            assert((out as i32) as int == out);
            assert(term_sum(one, x) == term_sum(one.drop_last(), x) + (out as i32) as int * xv);
            lemma_term_sum_scaled(v, -inp, x);
        }
        assert(recipes.take(n).drop_last() =~= recipes.take(n - 1));
        assert(recipes.take(n).last() == r);
        assert(value_of(u, r.unique_id) == xv);
        assert(net_change(r@, item) == out - inp);
        let f = flow(recipes.take(n - 1), u, item);
        assert(flow(recipes.take(n), u, item) == f + net_change(r@, item) * value_of(u, r.unique_id));
        assert(sign * (f + (out - inp) * xv) == sign * f + sign * (out * xv) - sign * (inp * xv)) by (nonlinear_arith);
        assert((-out) * xv == -(out * xv)) by (nonlinear_arith);
        assert((-inp) * xv == -(inp * xv)) by (nonlinear_arith);
    }
}

/// The row of an item in the programs, evaluated at any assignment `x` of the
/// recipe variables, is the item's final count under the usage `x` stands for;
/// the objective of the maximum program is minus the gain of the item, so
/// minimising it maximises the item's final count.
pub proof fn lemma_program_terms_mean_final_counts(
    recipes: Seq<Recipe>,
    start: Seq<(ItemId, usize)>,
    item: ItemId,
    x: Seq<i32>,
)
    requires
        x.len() == recipes.len(),
        counts_fit_i32(recipes, item),
        count_of(start, item) <= i32::MAX,
    ensures
        linear_value(flow_terms(recipes, start, item), x) == final_count(
            start,
            recipes,
            usage_from(recipes, var_positions(recipes), x, recipes.len() as int),
            item,
        ),
        linear_value(negated_flow_terms(recipes, item), x) == count_of(start, item) - final_count(
            start,
            recipes,
            usage_from(recipes, var_positions(recipes), x, recipes.len() as int),
            item,
        ),
{
    lemma_flow_list_value(recipes, item, false, x, recipes.len() as int);
    lemma_flow_list_value(recipes, item, true, x, recipes.len() as int);
    assert(recipes.take(recipes.len() as int) =~= recipes);
}

/// Every assignment within the bounds of an attempt stands for a usage that
/// holds each disabled identity at zero and no identity below zero.
pub proof fn lemma_bounds_hold_disabled_at_zero(recipes: Seq<Recipe>, disabled: Seq<usize>, x: Seq<i32>)
    requires
        recipes.len() <= usize::MAX,
        within_bounds(free_bounds(recipes, disabled), x),
    ensures
        forall|j: int| 0 <= j < recipes.len() ==> value_of(
            usage_from(recipes, var_positions(recipes), x, recipes.len() as int),
            (#[trigger] recipes[j]).unique_id,
        ) >= 0,
        forall|j: int| 0 <= j < recipes.len() && disabled.contains((#[trigger] recipes[j]).unique_id) ==> value_of(
            usage_from(recipes, var_positions(recipes), x, recipes.len() as int),
            recipes[j].unique_id,
        ) == 0,
{
    lemma_usage_from(recipes, x, recipes.len() as int);
    assert forall|j: int| 0 <= j < recipes.len() implies #[trigger] var_positions(recipes)[j] < recipes.len() && recipes[var_positions(recipes)[j] as int].unique_id == recipes[j].unique_id by {
        lemma_last_pos(recipes, recipes[j].unique_id);
        if last_pos(recipes, recipes[j].unique_id) < j {
            assert(recipes[j].unique_id != recipes[j].unique_id);
        }
        assert(var_positions(recipes)[j] == last_pos(recipes, recipes[j].unique_id) as usize);
    }
}

/// Every assignment that holds the disabled identities at zero and the others
/// at values from zero up lies within the bounds of the attempt.
pub proof fn lemma_bounds_admit_every_zeroed_usage(recipes: Seq<Recipe>, disabled: Seq<usize>, x: Seq<i32>)
    requires
        x.len() == recipes.len(),
        forall|k: int| 0 <= k < x.len() ==> #[trigger] x[k] >= 0,
        forall|k: int| 0 <= k < x.len() && disabled.contains((#[trigger] recipes[k]).unique_id) ==> x[k] == 0,
    ensures
        within_bounds(free_bounds(recipes, disabled), x),
{
    assert forall|k: int| 0 <= k < x.len() implies free_bounds(recipes, disabled)[k].0 <= #[trigger] x[k]
        <= free_bounds(recipes, disabled)[k].1 by {
        assert(recipes[k] == recipes[k]);
    }
}

/// Every row holds at `x`: its value is at least its bound.
pub open spec fn rows_hold(rows: Seq<((Seq<(usize, i32)>, i32), i32)>, x: Seq<i32>) -> bool {
    forall|k: int| 0 <= k < rows.len() ==> linear_value((#[trigger] rows[k]).0, x) >= rows[k].1 as int
}

/// The rows of the items hold at an assignment `x` exactly when every item
/// outside `unconstrained` ends, under the usage `x` stands for, at or above
/// its target count.
pub proof fn lemma_rows_hold_iff_targets_met(
    recipes: Seq<Recipe>,
    start: Seq<(ItemId, usize)>,
    target: Seq<(ItemId, usize)>,
    items: Seq<ItemId>,
    unconstrained: Seq<ItemId>,
    x: Seq<i32>,
)
    requires
        x.len() == recipes.len(),
        forall|i: int| 0 <= i < items.len() ==> counts_fit_i32(recipes, #[trigger] items[i]) && count_of(start, items[i])
            <= i32::MAX && count_of(target, items[i]) <= i32::MAX,
    ensures
        rows_hold(item_rows(recipes, start, target, items, unconstrained), x) <==> forall|i: int|
            0 <= i < items.len() && !unconstrained.contains(#[trigger] items[i]) ==> final_count(
                start,
                recipes,
                usage_from(recipes, var_positions(recipes), x, recipes.len() as int),
                items[i],
            ) >= count_of(target, items[i]),
    decreases items.len(),
{
    let u = usage_from(recipes, var_positions(recipes), x, recipes.len() as int);
    if items.len() > 0 {
        let w = items.drop_last();
        assert forall|i: int| 0 <= i < w.len() implies counts_fit_i32(recipes, #[trigger] w[i]) && count_of(start, w[i])
            <= i32::MAX && count_of(target, w[i]) <= i32::MAX by {
            assert(w[i] == items[i]);
        }
        lemma_rows_hold_iff_targets_met(recipes, start, target, w, unconstrained, x);
        let prev = item_rows(recipes, start, target, w, unconstrained);
        let it = items.last();
        assert(counts_fit_i32(recipes, items[items.len() - 1]));
        lemma_program_terms_mean_final_counts(recipes, start, it, x);
        let all = forall|i: int|
            0 <= i < items.len() && !unconstrained.contains(#[trigger] items[i]) ==> final_count(start, recipes, u, items[i])
                >= count_of(target, items[i]);
        let part = forall|i: int|
            0 <= i < w.len() && !unconstrained.contains(#[trigger] w[i]) ==> final_count(start, recipes, u, w[i])
                >= count_of(target, w[i]);
        assert(all <==> part && (!unconstrained.contains(it) ==> final_count(start, recipes, u, it) >= count_of(target, it))) by {
            if part && (!unconstrained.contains(it) ==> final_count(start, recipes, u, it) >= count_of(target, it)) {
                assert forall|i: int| 0 <= i < items.len() && !unconstrained.contains(#[trigger] items[i]) implies final_count(
                    start,
                    recipes,
                    u,
                    items[i],
                ) >= count_of(target, items[i]) by {
                    if i < w.len() {
                        assert(w[i] == items[i]);
                    }
                }
            }
            if all {
                assert forall|i: int| 0 <= i < w.len() && !unconstrained.contains(#[trigger] w[i]) implies final_count(
                    start,
                    recipes,
                    u,
                    w[i],
                ) >= count_of(target, w[i]) by {
                    assert(w[i] == items[i]);
                }
                assert(items[items.len() - 1] == it);
            }
        }
        if !unconstrained.contains(it) {
            let row = (flow_terms(recipes, start, it), count_of(target, it) as i32);
            let rows = prev.push(row);
            assert(item_rows(recipes, start, target, items, unconstrained) == rows);
            assert((count_of(target, it) as i32) as int == count_of(target, it));
            if rows_hold(rows, x) {
                assert forall|k: int| 0 <= k < prev.len() implies linear_value((#[trigger] prev[k]).0, x) >= prev[k].1 as int by {
                    assert(rows[k] == prev[k]);
                }
                assert(rows[prev.len() as int] == row);
            }
            if rows_hold(prev, x) && linear_value(row.0, x) >= row.1 as int {
                assert forall|k: int| 0 <= k < rows.len() implies linear_value((#[trigger] rows[k]).0, x) >= rows[k].1 as int by {
                    if k < prev.len() {
                        assert(rows[k] == prev[k]);
                    }
                }
            }
        }
    }
}

/// The bounds of the maximum program admit exactly the assignments from zero
/// up to the cap.
pub proof fn lemma_capped_bounds_box(n: nat, cap: i32, x: Seq<i32>)
    requires
        x.len() == n,
    ensures
        within_bounds(capped_bounds(n, cap), x) <==> forall|k: int| 0 <= k < n ==> 0 <= #[trigger] x[k] <= cap,
{
}

} // verus!
