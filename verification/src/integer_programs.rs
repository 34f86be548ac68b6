//! The integer programs over recipe usages: one variable per recipe (recipes
//! sharing an identity use the variable of the last of them), one row per
//! relevant item holding its final count at or above its target, and the
//! rank-order minimisation that fixes usages one recipe at a time.
use vstd::prelude::*;
use crate::crafting_domain::{ItemId, ItemSet, Recipe};
use crate::keyed_entries::count_of;
use crate::linear_program::{ilp_solution, ilp_solve, rows_view, terms_within, IlpModel, LinearTerms};

verus! {

/// Position of the last recipe with identity `id`, or -1.
pub open spec fn last_pos(recipes: Seq<Recipe>, id: usize) -> int
    decreases recipes.len(),
{
    if recipes.len() == 0 {
        -1
    } else if recipes.last().unique_id == id {
        recipes.len() - 1
    } else {
        last_pos(recipes.drop_last(), id)
    }
}

/// The variable of each recipe: the position of the last recipe of its identity.
pub open spec fn var_positions(recipes: Seq<Recipe>) -> Seq<usize> {
    Seq::new(recipes.len(), |j: int| last_pos(recipes, recipes[j].unique_id) as usize)
}

/// Bounds: 0 for the disabled identities, otherwise from 0 up to `i32::MAX`.
pub open spec fn free_bounds(recipes: Seq<Recipe>, disabled: Seq<usize>) -> Seq<(i32, i32)> {
    Seq::new(
        recipes.len(),
        |j: int|
            if disabled.contains(recipes[j].unique_id) {
                (0i32, 0i32)
            } else {
                (0i32, i32::MAX)
            },
    )
}

/// Bounds from 0 up to `cap` for `n` variables.
pub open spec fn capped_bounds(n: nat, cap: i32) -> Seq<(i32, i32)> {
    Seq::new(n, |j: int| (0i32, cap))
}

/// The term `c` times variable `v`, split in two when `c` is just above the
/// `i32` range.
pub open spec fn scaled(v: usize, c: int) -> Seq<(usize, i32)> {
    if c <= i32::MAX {
        seq![(v, c as i32)]
    } else {
        seq![(v, i32::MAX), (v, (c - i32::MAX) as i32)]
    }
}

/// For the first `n` recipes, output count minus input count of `item`
/// (counts as `i32`) times the recipe's variable; negated when `negate`.
pub open spec fn flow_list(recipes: Seq<Recipe>, item: ItemId, negate: bool, n: int) -> Seq<(usize, i32)>
    decreases n,
{
    if n <= 0 {
        Seq::empty()
    } else {
        let v = var_positions(recipes)[n - 1];
        let out = count_of(recipes[n - 1].output@, item) as i32 as int;
        let inp = count_of(recipes[n - 1].input@, item) as i32 as int;
        if negate {
            flow_list(recipes, item, negate, n - 1) + scaled(v, -out) + scaled(v, inp)
        } else {
            flow_list(recipes, item, negate, n - 1) + seq![(v, out as i32)] + scaled(v, -inp)
        }
    }
}

/// The final count of `item`: its starting count, plus each recipe's output
/// count and minus its input count, times the recipe's variable (counts as `i32`).
pub open spec fn flow_terms(recipes: Seq<Recipe>, start: Seq<(ItemId, usize)>, item: ItemId) -> (Seq<(usize, i32)>, i32) {
    (flow_list(recipes, item, false, recipes.len() as int), count_of(start, item) as i32)
}

/// The final count of `item` negated, without its starting count.
pub open spec fn negated_flow_terms(recipes: Seq<Recipe>, item: ItemId) -> (Seq<(usize, i32)>, i32) {
    (flow_list(recipes, item, true, recipes.len() as int), 0i32)
}

/// One row per item of `items` outside `unconstrained`: its final count is at
/// least its target count (as `i32`).
pub open spec fn item_rows(
    recipes: Seq<Recipe>,
    start: Seq<(ItemId, usize)>,
    target: Seq<(ItemId, usize)>,
    items: Seq<ItemId>,
    unconstrained: Seq<ItemId>,
) -> Seq<((Seq<(usize, i32)>, i32), i32)>
    decreases items.len(),
{
    if items.len() == 0 {
        Seq::empty()
    } else {
        let prev = item_rows(recipes, start, target, items.drop_last(), unconstrained);
        let x = items.last();
        if unconstrained.contains(x) {
            prev
        } else {
            prev.push((flow_terms(recipes, start, x), count_of(target, x) as i32))
        }
    }
}

/// The empty objective.
pub open spec fn no_terms() -> (Seq<(usize, i32)>, i32) {
    (Seq::empty(), 0i32)
}

/// The objective of one variable.
pub open spec fn single_term(v: usize) -> (Seq<(usize, i32)>, i32) {
    (seq![(v, 1i32)], 0i32)
}

/// The rows fixing variable `v` at `value`: `v >= value` and `value - v >= 0`.
pub open spec fn fix_rows(v: usize, value: i32) -> Seq<((Seq<(usize, i32)>, i32), i32)> {
    seq![(single_term(v), value), ((seq![(v, -1i32)], value), 0i32)]
}

/// Rank-order minimisation of the first `n` recipes' variables: after a first
/// solve shows the program solvable, each variable in turn is minimised with
/// the earlier ones fixed, and fixed at the value found. `None` when a solve
/// gives no answer.
pub open spec fn locked_fixes(
    bounds: Seq<(i32, i32)>,
    rows: Seq<((Seq<(usize, i32)>, i32), i32)>,
    positions: Seq<usize>,
    n: nat,
) -> Option<Seq<((Seq<(usize, i32)>, i32), i32)>>
    decreases n,
{
    if n == 0 {
        if ilp_solution(bounds, rows, no_terms()) is Some {
            Some(Seq::empty())
        } else {
            None
        }
    } else {
        match locked_fixes(bounds, rows, positions, (n - 1) as nat) {
            None => None,
            Some(f) => match ilp_solution(bounds, rows + f, single_term(positions[n - 1])) {
                None => None,
                Some(sol) => Some(f + fix_rows(positions[n - 1], sol[positions[n - 1] as int])),
            },
        }
    }
}

/// The solution of the program with every recipe's usage fixed in rank order.
pub open spec fn ranked_solution(
    recipes: Seq<Recipe>,
    bounds: Seq<(i32, i32)>,
    rows: Seq<((Seq<(usize, i32)>, i32), i32)>,
) -> Option<Seq<i32>> {
    match locked_fixes(bounds, rows, var_positions(recipes), recipes.len()) {
        None => None,
        Some(f) => ilp_solution(bounds, rows + f, no_terms()),
    }
}

pub proof fn lemma_last_pos(recipes: Seq<Recipe>, id: usize)
    ensures
        -1 <= last_pos(recipes, id) < recipes.len(),
        last_pos(recipes, id) >= 0 ==> recipes[last_pos(recipes, id)].unique_id == id,
        forall|m: int| last_pos(recipes, id) < m < recipes.len() ==> recipes[m].unique_id != id,
    decreases recipes.len(),
{
    if recipes.len() > 0 && recipes.last().unique_id != id {
        lemma_last_pos(recipes.drop_last(), id);
        assert forall|m: int| last_pos(recipes, id) < m < recipes.len() implies recipes[m].unique_id != id by {
            if m < recipes.len() - 1 {
                assert(recipes[m] == recipes.drop_last()[m]);
            }
        }
    }
}

/// Every recipe's variable is one of the recipes' positions.
pub proof fn lemma_positions_within(recipes: Seq<Recipe>)
    ensures
        forall|j: int| 0 <= j < recipes.len() ==> (#[trigger] var_positions(recipes)[j]) < recipes.len(),
{
    assert forall|j: int| 0 <= j < recipes.len() implies (#[trigger] var_positions(recipes)[j]) < recipes.len() by {
        lemma_last_pos(recipes, recipes[j].unique_id);
    }
}

/// The variable of each recipe.
pub fn variable_positions(recipes: &Vec<Recipe>) -> (positions: Vec<usize>)
    ensures
        positions@ == var_positions(recipes@),
        forall|j: int| 0 <= j < positions@.len() ==> (#[trigger] positions@[j]) < recipes@.len(),
{
    let mut positions: Vec<usize> = Vec::new();
    let mut j: usize = 0;
    while j < recipes.len()
        invariant
            j <= recipes.len(),
            positions@ == var_positions(recipes@).take(j as int),
            forall|q: int| 0 <= q < positions@.len() ==> (#[trigger] positions@[q]) < recipes@.len(),
        decreases recipes.len() - j,
    {
        let id = recipes[j].unique_id;
        let mut k: usize = recipes.len() - 1;
        while recipes[k].unique_id != id
            invariant
                j <= k < recipes.len(),
                recipes@[j as int].unique_id == id,
                forall|m: int| k < m < recipes@.len() ==> recipes@[m].unique_id != id,
            decreases k,
        {
            k = k - 1;
        }
        proof {
            lemma_last_pos(recipes@, id);
            let lp = last_pos(recipes@, id);
            if lp < k {
                assert(recipes@[k as int].unique_id != id);
            }
            if lp > k {
                assert(recipes@[lp].unique_id != id);
            }
        }
        positions.push(k);
        assert(var_positions(recipes@).take(j + 1) =~= var_positions(recipes@).take(j as int).push(k));
        j = j + 1;
    }
    assert(var_positions(recipes@).take(recipes@.len() as int) =~= var_positions(recipes@));
    positions
}

/// Bounds with the listed identities held at 0.
pub fn free_bounds_for(recipes: &Vec<Recipe>, disabled: &Vec<usize>) -> (bounds: Vec<(i32, i32)>)
    ensures
        bounds@ == free_bounds(recipes@, disabled@),
{
    let mut bounds: Vec<(i32, i32)> = Vec::new();
    let mut j: usize = 0;
    while j < recipes.len()
        invariant
            j <= recipes.len(),
            bounds@ == free_bounds(recipes@, disabled@).take(j as int),
        decreases recipes.len() - j,
    {
        let id = recipes[j].unique_id;
        let mut held = false;
        let mut d: usize = 0;
        while d < disabled.len()
            invariant
                d <= disabled.len(),
                held == exists|q: int| 0 <= q < d && disabled@[q] == id,
            decreases disabled.len() - d,
        {
            if disabled[d] == id {
                held = true;
            }
            d = d + 1;
        }
        if held {
            bounds.push((0, 0));
        } else {
            bounds.push((0, i32::MAX));
        }
        assert(bounds@ =~= free_bounds(recipes@, disabled@).take(j + 1));
        j = j + 1;
    }
    assert(free_bounds(recipes@, disabled@).take(recipes@.len() as int) =~= free_bounds(recipes@, disabled@));
    bounds
}

/// `n` bounds from 0 up to `cap`.
pub fn capped_bounds_for(n: usize, cap: i32) -> (bounds: Vec<(i32, i32)>)
    ensures
        bounds@ == capped_bounds(n as nat, cap),
{
    let mut bounds: Vec<(i32, i32)> = Vec::new();
    let mut j: usize = 0;
    while j < n
        invariant
            j <= n,
            bounds@ == capped_bounds(n as nat, cap).take(j as int),
        decreases n - j,
    {
        bounds.push((0, cap));
        assert(bounds@ =~= capped_bounds(n as nat, cap).take(j + 1));
        j = j + 1;
    }
    assert(capped_bounds(n as nat, cap).take(n as int) =~= capped_bounds(n as nat, cap));
    bounds
}

/// Appends `scaled(v, c)`.
fn push_scaled(list: &mut Vec<(usize, i32)>, v: usize, c: i64)
    requires
        i32::MIN <= c <= i32::MAX + 1,
    ensures
        final(list)@ == old(list)@ + scaled(v, c as int),
{
    if c > i32::MAX as i64 {
        list.push((v, i32::MAX));
        list.push((v, (c - i32::MAX as i64) as i32));
    } else {
        list.push((v, c as i32));
    }
    assert(list@ =~= old(list)@ + scaled(v, c as int));
}

/// The terms of an item's final count, or its negation.
fn flow_list_for(recipes: &Vec<Recipe>, positions: &Vec<usize>, item: ItemId, negate: bool) -> (list: Vec<(usize, i32)>)
    requires
        positions@ == var_positions(recipes@),
    ensures
        list@ == flow_list(recipes@, item, negate, recipes@.len() as int),
{
    let mut list: Vec<(usize, i32)> = Vec::new();
    let mut j: usize = 0;
    while j < recipes.len()
        invariant
            j <= recipes.len(),
            positions@ == var_positions(recipes@),
            list@ == flow_list(recipes@, item, negate, j as int),
        decreases recipes.len() - j,
    {
        let v = positions[j];
        let out = recipes[j].output.count(item) as i32 as i64;
        let inp = recipes[j].input.count(item) as i32 as i64;
        if negate {
            push_scaled(&mut list, v, -out);
            push_scaled(&mut list, v, inp);
        } else {
            list.push((v, out as i32));
            push_scaled(&mut list, v, -inp);
        }
        j = j + 1;
    }
    list
}

/// The terms of an item's final count.
pub fn flow_terms_for(recipes: &Vec<Recipe>, positions: &Vec<usize>, start: &ItemSet, item: ItemId) -> (t: LinearTerms)
    requires
        positions@ == var_positions(recipes@),
    ensures
        t@ == flow_terms(recipes@, start@, item),
{
    LinearTerms { terms: flow_list_for(recipes, positions, item, false), constant: start.count(item) as i32 }
}

/// The negated terms of an item's final count, without its starting count.
pub fn negated_flow_terms_for(recipes: &Vec<Recipe>, positions: &Vec<usize>, item: ItemId) -> (t: LinearTerms)
    requires
        positions@ == var_positions(recipes@),
    ensures
        t@ == negated_flow_terms(recipes@, item),
{
    LinearTerms { terms: flow_list_for(recipes, positions, item, true), constant: 0 }
}

/// The target rows of the items outside `unconstrained`, in item order.
pub fn item_rows_for(
    recipes: &Vec<Recipe>,
    positions: &Vec<usize>,
    start: &ItemSet,
    target: &ItemSet,
    items: &Vec<ItemId>,
    unconstrained: &Vec<ItemId>,
) -> (rows: Vec<(LinearTerms, i32)>)
    requires
        positions@ == var_positions(recipes@),
    ensures
        rows_view(rows@) == item_rows(recipes@, start@, target@, items@, unconstrained@),
{
    let mut rows: Vec<(LinearTerms, i32)> = Vec::new();
    let mut i: usize = 0;
    while i < items.len()
        invariant
            i <= items.len(),
            positions@ == var_positions(recipes@),
            rows_view(rows@) == item_rows(recipes@, start@, target@, items@.take(i as int), unconstrained@),
        decreases items.len() - i,
    {
        let item = items[i];
        assert(items@.take(i + 1).drop_last() =~= items@.take(i as int));
        let mut free = false;
        let mut u: usize = 0;
        while u < unconstrained.len()
            invariant
                u <= unconstrained.len(),
                free == exists|q: int| 0 <= q < u && unconstrained@[q] == item,
            decreases unconstrained.len() - u,
        {
            if unconstrained[u] == item {
                free = true;
            }
            u = u + 1;
        }
        if !free {
            let ghost before = rows@;
            rows.push((flow_terms_for(recipes, positions, start, item), target.count(item) as i32));
            assert(rows_view(rows@) =~= rows_view(before).push(rows_view(rows@).last()));
        }
        i = i + 1;
    }
    assert(items@.take(items@.len() as int) =~= items@);
    rows
}

fn copy_pairs(v: &Vec<(usize, i32)>) -> (c: Vec<(usize, i32)>)
    ensures
        c@ == v@,
{
    let mut c: Vec<(usize, i32)> = Vec::new();
    let mut k: usize = 0;
    while k < v.len()
        invariant
            k <= v.len(),
            c@ == v@.take(k as int),
        decreases v.len() - k,
    {
        c.push(v[k]);
        assert(c@ =~= v@.take(k + 1));
        k = k + 1;
    }
    assert(v@.take(v@.len() as int) =~= v@);
    c
}

fn copy_terms(t: &LinearTerms) -> (c: LinearTerms)
    ensures
        c@ == t@,
{
    LinearTerms { terms: copy_pairs(&t.terms), constant: t.constant }
}

/// Appends copies of the rows of `src`.
fn append_rows(dst: &mut Vec<(LinearTerms, i32)>, src: &Vec<(LinearTerms, i32)>)
    ensures
        rows_view(final(dst)@) == rows_view(old(dst)@) + rows_view(src@),
{
    let ghost start = dst@;
    let mut k: usize = 0;
    while k < src.len()
        invariant
            k <= src.len(),
            dst@.len() == start.len() + k,
            forall|i: int| 0 <= i < start.len() ==> (#[trigger] dst@[i]).0@ == start[i].0@ && dst@[i].1 == start[i].1,
            forall|i: int| 0 <= i < k ==> (#[trigger] dst@[start.len() + i]).0@ == src@[i].0@ && dst@[start.len() + i].1
                == src@[i].1,
        decreases src.len() - k,
    {
        let copied = copy_terms(&src[k].0);
        let ghost before = dst@;
        dst.push((copied, src[k].1));
        proof {
            assert forall|i: int| 0 <= i < start.len() implies (#[trigger] dst@[i]).0@ == start[i].0@ && dst@[i].1
                == start[i].1 by {
                assert(dst@[i] == before[i]);
            }
            assert forall|i: int| 0 <= i < k + 1 implies (#[trigger] dst@[start.len() + i]).0@ == src@[i].0@ && dst@[
                start.len() + i].1 == src@[i].1 by {
                if i < k {
                    assert(dst@[start.len() + i] == before[start.len() + i]);
                }
            }
        }
        k = k + 1;
    }
    proof {
        assert forall|i: int| 0 <= i < dst@.len() implies #[trigger] rows_view(dst@)[i] == (rows_view(start) + rows_view(
            src@,
        ))[i] by {
            if i >= start.len() {
                assert(dst@[start.len() + (i - start.len())] == dst@[i]);
            }
        }
        assert(rows_view(dst@) =~= rows_view(start) + rows_view(src@));
    }
}

fn copy_bounds(b: &Vec<(i32, i32)>) -> (c: Vec<(i32, i32)>)
    ensures
        c@ == b@,
{
    let mut c: Vec<(i32, i32)> = Vec::new();
    let mut k: usize = 0;
    while k < b.len()
        invariant
            k <= b.len(),
            c@ == b@.take(k as int),
        decreases b.len() - k,
    {
        c.push(b[k]);
        assert(c@ =~= b@.take(k + 1));
        k = k + 1;
    }
    assert(b@.take(b@.len() as int) =~= b@);
    c
}

/// Every term of the rows names one of `n` variables.
pub open spec fn rows_within(rows: Seq<((Seq<(usize, i32)>, i32), i32)>, n: int) -> bool {
    forall|k: int| 0 <= k < rows.len() ==> terms_within((#[trigger] rows[k]).0, n)
}

/// Solves the program made of `bounds`, the rows followed by the fixing rows,
/// and an objective.
pub fn solve_program(
    bounds: &Vec<(i32, i32)>,
    rows: &Vec<(LinearTerms, i32)>,
    fixes: &Vec<(LinearTerms, i32)>,
    objective: LinearTerms,
) -> (r: Option<Vec<i32>>)
    requires
        rows_within(rows_view(rows@), bounds@.len() as int),
        rows_within(rows_view(fixes@), bounds@.len() as int),
        terms_within(objective@, bounds@.len() as int),
    ensures
        match r {
            Some(v) => ilp_solution(bounds@, rows_view(rows@) + rows_view(fixes@), objective@) == Some(v@) && v@.len()
                == bounds@.len(),
            None => ilp_solution(bounds@, rows_view(rows@) + rows_view(fixes@), objective@) is None,
        },
{
    let mut all: Vec<(LinearTerms, i32)> = Vec::new();
    assert(rows_view(all@) =~= Seq::empty());
    append_rows(&mut all, rows);
    append_rows(&mut all, fixes);
    assert(rows_view(all@) =~= rows_view(rows@) + rows_view(fixes@));
    let model = IlpModel { bounds: copy_bounds(bounds), at_least: all, objective };
    proof {
        assert forall|k: int| 0 <= k < model.at_least@.len() implies terms_within(
            (#[trigger] model.at_least@[k]).0@,
            model.bounds@.len() as int,
        ) by {
            let joined = rows_view(rows@) + rows_view(fixes@);
            assert(rows_view(model.at_least@)[k] == joined[k]);
            if k < rows_view(rows@).len() {
                assert(joined[k] == rows_view(rows@)[k]);
            } else {
                assert(joined[k] == rows_view(fixes@)[k - rows_view(rows@).len()]);
            }
        }
    }
    ilp_solve(&model)
}

/// Fixes the recipes' variables one by one, in the given order, at their
/// least values: first checks that the program is solvable, then minimises
/// each variable with the earlier ones fixed and fixes it at the value found.
/// Returns the fixing rows, or `None` when a solve gives no answer.
pub fn lock_recipe_usages_in_priority_order(
    recipes: &Vec<Recipe>,
    positions: &Vec<usize>,
    bounds: &Vec<(i32, i32)>,
    rows: &Vec<(LinearTerms, i32)>,
) -> (fixed: Option<Vec<(LinearTerms, i32)>>)
    requires
        positions@ == var_positions(recipes@),
        bounds@.len() == recipes@.len(),
        rows_within(rows_view(rows@), bounds@.len() as int),
    ensures
        match fixed {
            Some(f) => locked_fixes(bounds@, rows_view(rows@), positions@, recipes@.len()) == Some(rows_view(f@)),
            None => locked_fixes(bounds@, rows_view(rows@), positions@, recipes@.len()) is None,
        },
{
    let mut fixes: Vec<(LinearTerms, i32)> = Vec::new();
    let none = LinearTerms { terms: Vec::new(), constant: 0 };
    assert(none@ =~= no_terms());
    assert(rows_view(fixes@) =~= Seq::empty());
    assert(rows_view(rows@) + rows_view(fixes@) =~= rows_view(rows@));
    match solve_program(bounds, rows, &fixes, none) {
        Some(_) => {},
        None => {
            proof {
                lemma_locked_none(bounds@, rows_view(rows@), positions@, 0, recipes@.len());
            }
            return None;
        },
    }
    proof {
        assert forall|q: int| 0 <= q < positions@.len() implies (#[trigger] positions@[q]) < recipes@.len() by {
            lemma_last_pos(recipes@, recipes@[q].unique_id);
        }
    }
    let mut j: usize = 0;
    while j < recipes.len()
        invariant
            j <= recipes.len(),
            positions@ == var_positions(recipes@),
            bounds@.len() == recipes@.len(),
            rows_within(rows_view(rows@), bounds@.len() as int),
            forall|q: int| 0 <= q < positions@.len() ==> (#[trigger] positions@[q]) < recipes@.len(),
            rows_within(rows_view(fixes@), bounds@.len() as int),
            locked_fixes(bounds@, rows_view(rows@), positions@, j as nat) == Some(rows_view(fixes@)),
        decreases recipes.len() - j,
    {
        let v = positions[j];
        let objective = LinearTerms { terms: vec![(v, 1)], constant: 0 };
        assert(objective@ =~= single_term(v));
        let solution = match solve_program(bounds, rows, &fixes, objective) {
            Some(s) => s,
            None => {
                proof {
                    lemma_locked_none(bounds@, rows_view(rows@), positions@, (j + 1) as nat, recipes@.len());
                }
                return None;
            },
        };
        let value = solution[v];
        let ghost before = fixes@;
        let low = LinearTerms { terms: vec![(v, 1)], constant: 0 };
        let high = LinearTerms { terms: vec![(v, -1)], constant: value };
        assert(low@ =~= single_term(v));
        assert(high@ =~= (seq![(v, -1i32)], value));
        fixes.push((low, value));
        fixes.push((high, 0));
        proof {
            assert(rows_view(fixes@) =~= rows_view(before) + fix_rows(v, value));
            assert forall|k: int| 0 <= k < rows_view(fixes@).len() implies terms_within(
                (#[trigger] rows_view(fixes@)[k]).0,
                bounds@.len() as int,
            ) by {
                if k < before.len() {
                    assert(rows_view(fixes@)[k] == rows_view(before)[k]);
                }
            }
        }
        j = j + 1;
    }
    Some(fixes)
}

/// The solution of the program with every usage fixed in rank order.
pub fn ranked_solve(
    recipes: &Vec<Recipe>,
    positions: &Vec<usize>,
    bounds: &Vec<(i32, i32)>,
    rows: &Vec<(LinearTerms, i32)>,
) -> (r: Option<Vec<i32>>)
    requires
        positions@ == var_positions(recipes@),
        bounds@.len() == recipes@.len(),
        rows_within(rows_view(rows@), bounds@.len() as int),
    ensures
        match r {
            Some(v) => ranked_solution(recipes@, bounds@, rows_view(rows@)) == Some(v@) && v@.len() == bounds@.len(),
            None => ranked_solution(recipes@, bounds@, rows_view(rows@)) is None,
        },
{
    let fixes = match lock_recipe_usages_in_priority_order(recipes, positions, bounds, rows) {
        Some(f) => f,
        None => {
            return None;
        },
    };
    proof {
        assert forall|q: int| 0 <= q < positions@.len() implies (#[trigger] positions@[q]) < bounds@.len() by {
            lemma_last_pos(recipes@, recipes@[q].unique_id);
        }
        lemma_fixes_within(bounds@, rows_view(rows@), positions@, recipes@.len());
    }
    let none = LinearTerms { terms: Vec::new(), constant: 0 };
    assert(none@ =~= no_terms());
    solve_program(bounds, rows, &fixes, none)
}

/// Once a solve gives no answer, so does every longer minimisation.
proof fn lemma_locked_none(
    bounds: Seq<(i32, i32)>,
    rows: Seq<((Seq<(usize, i32)>, i32), i32)>,
    positions: Seq<usize>,
    m: nat,
    n: nat,
)
    requires
        m <= n,
        locked_fixes(bounds, rows, positions, m) is None,
    ensures
        locked_fixes(bounds, rows, positions, n) is None,
    decreases n,
{
    if m < n {
        lemma_locked_none(bounds, rows, positions, m, (n - 1) as nat);
    }
}

/// Fixing rows only name the recipes' variables.
proof fn lemma_fixes_within(
    bounds: Seq<(i32, i32)>,
    rows: Seq<((Seq<(usize, i32)>, i32), i32)>,
    positions: Seq<usize>,
    n: nat,
)
    requires
        n <= positions.len(),
        forall|q: int| 0 <= q < positions.len() ==> (#[trigger] positions[q]) < bounds.len(),
    ensures
        locked_fixes(bounds, rows, positions, n) matches Some(f) ==> rows_within(f, bounds.len() as int),
    decreases n,
{
    if n > 0 {
        lemma_fixes_within(bounds, rows, positions, (n - 1) as nat);
        if let Some(f) = locked_fixes(bounds, rows, positions, n) {
            let prev = locked_fixes(bounds, rows, positions, (n - 1) as nat)->0;
            assert forall|k: int| 0 <= k < f.len() implies terms_within((#[trigger] f[k]).0, bounds.len() as int) by {
                if k < prev.len() {
                    assert(f[k] == prev[k]);
                }
            }
        }
    }
}

/// The rows for the items are within the recipes' variables.
pub proof fn lemma_item_rows_within(
    recipes: Seq<Recipe>,
    start: Seq<(ItemId, usize)>,
    target: Seq<(ItemId, usize)>,
    items: Seq<ItemId>,
    unconstrained: Seq<ItemId>,
)
    ensures
        rows_within(item_rows(recipes, start, target, items, unconstrained), recipes.len() as int),
    decreases items.len(),
{
    if items.len() > 0 {
        lemma_item_rows_within(recipes, start, target, items.drop_last(), unconstrained);
        lemma_flow_within(recipes, start, items.last());
        let prev = item_rows(recipes, start, target, items.drop_last(), unconstrained);
        let all = item_rows(recipes, start, target, items, unconstrained);
        assert forall|k: int| 0 <= k < all.len() implies terms_within((#[trigger] all[k]).0, recipes.len() as int) by {
            if k < prev.len() {
                assert(all[k] == prev[k]);
            }
        }
    }
}

/// The terms of a final count, negated or not, are within the recipes' variables.
pub proof fn lemma_flow_list_within(recipes: Seq<Recipe>, item: ItemId, negate: bool, n: int)
    requires
        n <= recipes.len(),
    ensures
        forall|k: int| 0 <= k < flow_list(recipes, item, negate, n).len() ==> (#[trigger] flow_list(
            recipes,
            item,
            negate,
            n,
        )[k]).0 < recipes.len(),
    decreases n,
{
    if n > 0 {
        lemma_flow_list_within(recipes, item, negate, n - 1);
        let id = recipes[n - 1].unique_id;
        lemma_last_pos(recipes, id);
        if last_pos(recipes, id) < n - 1 {
            assert(recipes[n - 1].unique_id != id);
        }
        let v = var_positions(recipes)[n - 1];
        assert(v < recipes.len());
        let l = flow_list(recipes, item, negate, n);
        let p = flow_list(recipes, item, negate, n - 1);
        let out = count_of(recipes[n - 1].output@, item) as i32 as int;
        let inp = count_of(recipes[n - 1].input@, item) as i32 as int;
        let a: Seq<(usize, i32)> = if negate { scaled(v, -out) } else { seq![(v, out as i32)] };
        let c: Seq<(usize, i32)> = if negate { scaled(v, inp) } else { scaled(v, -inp) };
        assert(l == p + a + c);
        assert forall|k: int| 0 <= k < a.len() implies (#[trigger] a[k]).0 == v by {}
        assert forall|k: int| 0 <= k < c.len() implies (#[trigger] c[k]).0 == v by {}
        assert forall|k: int| 0 <= k < l.len() implies (#[trigger] l[k]).0 < recipes.len() by {
            if k < p.len() {
                assert(l[k] == p[k]);
            } else if k < p.len() + a.len() {
                assert(l[k] == a[k - p.len()]);
            } else {
                assert(l[k] == c[k - p.len() - a.len()]);
            }
        }
    }
}

/// The terms of a final count are within the recipes' variables.
pub proof fn lemma_flow_within(recipes: Seq<Recipe>, start: Seq<(ItemId, usize)>, item: ItemId)
    ensures
        terms_within(flow_terms(recipes, start, item), recipes.len() as int),
        terms_within(negated_flow_terms(recipes, item), recipes.len() as int),
{
    lemma_flow_list_within(recipes, item, false, recipes.len() as int);
    lemma_flow_list_within(recipes, item, true, recipes.len() as int);
}

} // verus!
