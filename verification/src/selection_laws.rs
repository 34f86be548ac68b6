//! Selecting the top-priority recipes a second time keeps the selection.
use vstd::prelude::*;
use crate::crafting_domain::{ItemId, Recipe, RecipeView};
use crate::keyed_entries::has_key;
use crate::recipe_analysis::{
    adds_output, greedy_selection, is_priority_order, no_duplicates, pioneer, pioneer_id, pioneer_outputs, priority_rank,
};

verus! {

/// The positions of `s` whose items `p` keeps, in order: they make up the
/// filtered sequence.
pub proof fn lemma_filter_positions<A>(s: Seq<A>, p: spec_fn(A) -> bool) -> (f: Seq<int>)
    ensures
        f.len() == s.filter(p).len(),
        forall|m: int| 0 <= m < f.len() ==> 0 <= #[trigger] f[m] < s.len() && s.filter(p)[m] == s[f[m]] && p(s[f[m]]),
        forall|m: int, m2: int| 0 <= m < m2 < f.len() ==> f[m] < f[m2],
        forall|i: int| 0 <= i < s.len() && p(#[trigger] s[i]) ==> exists|m: int| 0 <= m < f.len() && f[m] == i,
    decreases s.len(),
{
    reveal(Seq::filter);
    if s.len() == 0 {
        Seq::empty()
    } else {
        let w = s.drop_last();
        let f0 = lemma_filter_positions(w, p);
        let f = if p(s.last()) { f0.push(s.len() - 1) } else { f0 };
        assert forall|m: int| 0 <= m < f.len() implies 0 <= #[trigger] f[m] < s.len() && s.filter(p)[m] == s[f[m]] && p(
            s[f[m]],
        ) by {
            if m < f0.len() {
                assert(w[f0[m]] == s[f0[m]]);
            }
        }
        assert forall|i: int| 0 <= i < s.len() && p(#[trigger] s[i]) implies exists|m: int| 0 <= m < f.len() && f[m] == i by {
            if i < s.len() - 1 {
                assert(w[i] == s[i]);
                let m = choose|m: int| 0 <= m < f0.len() && f0[m] == i;
                assert(f[m] == i);
            } else {
                assert(f[f.len() - 1] == i);
            }
        }
        f
    }
}

/// A filter that keeps every item keeps the sequence.
proof fn lemma_filter_all<A>(s: Seq<A>, p: spec_fn(A) -> bool)
    requires
        forall|i: int| 0 <= i < s.len() ==> p(#[trigger] s[i]),
    ensures
        s.filter(p) == s,
    decreases s.len(),
{
    reveal(Seq::filter);
    if s.len() > 0 {
        let w = s.drop_last();
        assert forall|i: int| 0 <= i < w.len() implies p(#[trigger] w[i]) by {
            assert(w[i] == s[i]);
        }
        lemma_filter_all(w, p);
        assert(w.push(s.last()) =~= s);
    }
}

/// A priority order of recipes already sorted by priority is the identity.
proof fn lemma_sorted_order_is_identity(rs: Seq<Recipe>, o: Seq<usize>)
    requires
        is_priority_order(rs, o),
        forall|a: int, b: int| 0 <= a < b < rs.len() ==> priority_rank(#[trigger] rs[a]@) <= priority_rank(#[trigger] rs[b]@),
    ensures
        forall|k: int| 0 <= k < o.len() ==> #[trigger] o[k] == k,
{
    assert forall|k: int, l: int| 0 <= k < l < o.len() implies #[trigger] o[k] < #[trigger] o[l] by {
        if o[k] > o[l] {
            assert(priority_rank(rs[o[l] as int]@) <= priority_rank(rs[o[k] as int]@));
            assert(priority_rank(rs[o[k] as int]@) <= priority_rank(rs[o[l] as int]@));
        }
        assert(o[k] != o[l]);
    }
    lemma_increasing_low(o, o.len() as int);
    lemma_increasing_high(o, 0);
}

proof fn lemma_increasing_low(o: Seq<usize>, n: int)
    requires
        0 <= n <= o.len(),
        forall|k: int, l: int| 0 <= k < l < o.len() ==> #[trigger] o[k] < #[trigger] o[l],
    ensures
        forall|k: int| 0 <= k < n ==> #[trigger] o[k] >= k,
    decreases n,
{
    if n > 0 {
        lemma_increasing_low(o, n - 1);
        if n >= 2 {
            assert(o[n - 2] < o[n - 1]);
        }
    }
}

proof fn lemma_increasing_high(o: Seq<usize>, n: int)
    requires
        0 <= n <= o.len(),
        forall|k: int, l: int| 0 <= k < l < o.len() ==> #[trigger] o[k] < #[trigger] o[l],
        forall|k: int| 0 <= k < o.len() ==> #[trigger] o[k] < o.len(),
        forall|k: int| 0 <= k < o.len() ==> #[trigger] o[k] >= k,
    ensures
        forall|k: int| n <= k < o.len() ==> #[trigger] o[k] <= k,
    decreases o.len() - n,
{
    if n < o.len() {
        lemma_increasing_high(o, n + 1);
        if n + 1 < o.len() {
            assert(o[n] < o[n + 1]);
        }
    }
}

/// Recipes that are not pioneers leave the pioneer outputs as they are.
proof fn lemma_no_pioneers(recipes: Seq<Recipe>, o: Seq<usize>, a: int, b: int)
    requires
        0 <= a <= b <= o.len(),
        forall|k: int| a <= k < b ==> !#[trigger] pioneer(recipes, o, k),
    ensures
        pioneer_outputs(recipes, o, b as nat) == pioneer_outputs(recipes, o, a as nat),
    decreases b - a,
{
    if a < b {
        lemma_no_pioneers(recipes, o, a, b - 1);
        assert(!pioneer(recipes, o, b - 1));
    }
}

/// The pioneer outputs of the selection, up to position `m`, are those of the
/// whole order up to the position the `m`-th selected recipe came from.
proof fn lemma_selected_outputs(
    recipes: Seq<Recipe>,
    o: Seq<usize>,
    sel: Seq<Recipe>,
    o2: Seq<usize>,
    f: Seq<int>,
    m: int,
)
    requires
        0 <= m < sel.len(),
        f.len() == sel.len(),
        forall|k: int| 0 <= k < o2.len() ==> #[trigger] o2[k] == k,
        o2.len() == sel.len(),
        forall|a: int| 0 <= a < f.len() ==> 0 <= #[trigger] f[a] < o.len() && sel[a]@ == recipes[o[f[a]] as int]@
            && pioneer(recipes, o, f[a]),
        forall|a: int, b: int| 0 <= a < b < f.len() ==> f[a] < f[b],
        forall|k: int| 0 <= k < o.len() && #[trigger] pioneer(recipes, o, k) ==> exists|a: int| 0 <= a < f.len() && f[a] == k,
    ensures
        pioneer_outputs(sel, o2, m as nat) == pioneer_outputs(recipes, o, f[m] as nat),
    decreases m,
{
    assert forall|k: int| (if m == 0 { 0 } else { f[m - 1] + 1 }) <= k < f[m] implies !#[trigger] pioneer(recipes, o, k) by {
        if pioneer(recipes, o, k) {
            let a = choose|a: int| 0 <= a < f.len() && f[a] == k;
            if a < m {
                if a < m - 1 {
                    assert(f[a] < f[m - 1]);
                }
            } else if a > m {
                assert(f[m] < f[a]);
            }
        }
    }
    if m == 0 {
        lemma_no_pioneers(recipes, o, 0, f[0]);
    } else {
        lemma_selected_outputs(recipes, o, sel, o2, f, m - 1);
        assert(f[m - 1] < f[m]);
        lemma_no_pioneers(recipes, o, f[m - 1] + 1, f[m]);
        let before = pioneer_outputs(recipes, o, f[m - 1] as nat);
        assert(o2[m - 1] == m - 1);
        assert(sel[(m - 1) as int]@ == recipes[o[f[m - 1]] as int]@);
        assert(pioneer(recipes, o, f[m - 1]));
        assert(pioneer_outputs(recipes, o, (f[m - 1] + 1) as nat) == before.union(
            Set::new(|x: ItemId| crate::keyed_entries::has_key(recipes[o[f[m - 1]] as int]@.output, x)),
        ));
    }
}

/// Selecting the top-priority recipes of a selection keeps it as it is: the
/// same recipes in the same order.
pub proof fn lemma_selection_idempotent(recipes: Seq<Recipe>, o: Seq<usize>, sel: Seq<Recipe>, o2: Seq<usize>)
    requires
        forall|i: int, j: int| 0 <= i < j < recipes.len() ==> recipes[i].unique_id != recipes[j].unique_id,
        is_priority_order(recipes, o),
        sel.map_values(|r: Recipe| r@) == greedy_selection(recipes, o),
        is_priority_order(sel, o2),
    ensures
        greedy_selection(sel, o2) == greedy_selection(recipes, o),
{
    let v = o.map_values(|j: usize| recipes[j as int]@);
    let keep = |r: RecipeView| pioneer_id(recipes, o, r.unique_id);
    let s = v.filter(keep);
    assert(s == greedy_selection(recipes, o));
    let f = lemma_filter_positions(v, keep);
    assert(sel.len() == s.len()) by {
        assert(sel.map_values(|r: Recipe| r@).len() == sel.len());
    }
    assert forall|a: int| 0 <= a < sel.len() implies #[trigger] sel[a]@ == s[a] by {
        assert(sel.map_values(|r: Recipe| r@)[a] == sel[a]@);
    }
    assert forall|a: int, b: int| 0 <= a < b < sel.len() implies priority_rank(#[trigger] sel[a]@) <= priority_rank(
        #[trigger] sel[b]@,
    ) by {
        assert(f[a] < f[b]);
        assert(sel[a]@ == v[f[a]] && sel[b]@ == v[f[b]]);
    }
    lemma_sorted_order_is_identity(sel, o2);
    assert forall|a: int| 0 <= a < f.len() implies 0 <= #[trigger] f[a] < o.len() && sel[a]@ == recipes[o[f[a]] as int]@
        && pioneer(recipes, o, f[a]) by {
        assert(sel[a]@ == v[f[a]]);
        assert(keep(v[f[a]]));
        let k = choose|k: int| 0 <= k < o.len() && pioneer(recipes, o, k) && #[trigger] recipes[o[k] as int].unique_id
            == v[f[a]].unique_id;
        if o[k] < o[f[a]] {
            assert(recipes[o[k] as int].unique_id != recipes[o[f[a]] as int].unique_id);
        } else if o[k] > o[f[a]] {
            assert(recipes[o[f[a]] as int].unique_id != recipes[o[k] as int].unique_id);
        }
    }
    assert forall|k: int| 0 <= k < o.len() && #[trigger] pioneer(recipes, o, k) implies exists|a: int|
        0 <= a < f.len() && f[a] == k by {
        assert(keep(v[k]));
    }
    let keep2 = |r: RecipeView| pioneer_id(sel, o2, r.unique_id);
    let w = o2.map_values(|j: usize| sel[j as int]@);
    assert(w =~= s) by {
        assert forall|a: int| 0 <= a < w.len() implies w[a] == s[a] by {
            assert(o2[a] == a);
        }
    }
    assert forall|a: int| 0 <= a < s.len() implies keep2(#[trigger] s[a]) by {
        lemma_selected_outputs(recipes, o, sel, o2, f, a);
        assert(o2[a] == a);
        assert(pioneer(sel, o2, a));
        assert(sel[o2[a] as int].unique_id == s[a].unique_id);
    }
    lemma_filter_all(s, keep2);
    assert(greedy_selection(sel, o2) == w.filter(keep2));
}

/// A list of `n` distinct numbers below `n` holds each of them.
proof fn lemma_distinct_full(s: Seq<usize>, n: nat, j: usize)
    requires
        no_duplicates(s),
        s.len() == n,
        forall|k: int| 0 <= k < s.len() ==> #[trigger] s[k] < n,
        j < n,
    ensures
        s.contains(j),
{
    if !s.contains(j) {
        let t = s.map_values(|v: usize| if v > j { (v - 1) as usize } else { v });
        assert forall|k: int| 0 <= k < t.len() implies #[trigger] t[k] < (n - 1) as nat by {
            assert(s[k] != j);
        }
        assert forall|a: int, b: int| 0 <= a < b < t.len() implies t[a] != t[b] by {
            assert(s[a] != s[b]);
            assert(s[a] != j && s[b] != j);
        }
        crate::recipe_analysis::lemma_distinct_bounded(t, (n - 1) as nat);
    }
}

/// The items that the pioneers among the first `i` recipes of the order make
/// include every output of those recipes.
proof fn lemma_outputs_seen(recipes: Seq<Recipe>, o: Seq<usize>, i: int, k: int, x: ItemId)
    requires
        0 <= k < i <= o.len(),
        has_key(recipes[o[k] as int]@.output, x),
    ensures
        pioneer_outputs(recipes, o, i as nat).contains(x),
    decreases i,
{
    if k < i - 1 {
        lemma_outputs_seen(recipes, o, i - 1, k, x);
    } else {
        let before = pioneer_outputs(recipes, o, k as nat);
        let r = recipes[o[k] as int]@;
        if !adds_output(r, before) {
            let q = choose|q: int| 0 <= q < r.output.len() && #[trigger] r.output[q].0 == x;
            assert(before.contains(r.output[q].0));
        }
    }
}

/// Every item the pioneers among the first `i` recipes make is an output of
/// one of those pioneers.
proof fn lemma_seen_from_pioneer(recipes: Seq<Recipe>, o: Seq<usize>, i: int, x: ItemId)
    requires
        0 <= i <= o.len(),
        pioneer_outputs(recipes, o, i as nat).contains(x),
    ensures
        exists|k: int| 0 <= k < i && pioneer(recipes, o, k) && #[trigger] has_key(recipes[o[k] as int]@.output, x),
    decreases i,
{
    if i > 0 {
        let before = pioneer_outputs(recipes, o, (i - 1) as nat);
        if before.contains(x) {
            lemma_seen_from_pioneer(recipes, o, i - 1, x);
        } else {
            assert(pioneer(recipes, o, i - 1));
            assert(has_key(recipes[o[i - 1] as int]@.output, x));
        }
    }
}

/// Every item that some recipe makes is made by a selected recipe: the
/// selection drops a recipe only when everything it makes is already made by
/// a recipe kept before it.
pub proof fn lemma_selection_covers_outputs(recipes: Seq<Recipe>, o: Seq<usize>, j: usize, x: ItemId)
    requires
        is_priority_order(recipes, o),
        j < recipes.len(),
        has_key(recipes[j as int]@.output, x),
    ensures
        exists|s: int| 0 <= s < greedy_selection(recipes, o).len() && #[trigger] has_key(
            greedy_selection(recipes, o)[s].output,
            x,
        ),
{
    lemma_distinct_full(o, recipes.len(), j);
    let k = choose|k: int| 0 <= k < o.len() && o[k] == j;
    lemma_outputs_seen(recipes, o, o.len() as int, k, x);
    lemma_seen_from_pioneer(recipes, o, o.len() as int, x);
    let k2 = choose|k2: int| 0 <= k2 < o.len() && pioneer(recipes, o, k2) && #[trigger] has_key(
        recipes[o[k2] as int]@.output,
        x,
    );
    let v = o.map_values(|q: usize| recipes[q as int]@);
    let keep = |r: RecipeView| pioneer_id(recipes, o, r.unique_id);
    let f = lemma_filter_positions(v, keep);
    assert(keep(v[k2]));
    let m = choose|m: int| 0 <= m < f.len() && f[m] == k2;
    assert(greedy_selection(recipes, o) == v.filter(keep));
    assert(greedy_selection(recipes, o)[m] == v[k2]);
}

/// The pioneer outputs only grow along the order.
proof fn lemma_seen_grows(recipes: Seq<Recipe>, o: Seq<usize>, a: int, b: int, x: ItemId)
    requires
        0 <= a <= b,
        pioneer_outputs(recipes, o, a as nat).contains(x),
    ensures
        pioneer_outputs(recipes, o, b as nat).contains(x),
    decreases b - a,
{
    if a < b {
        lemma_seen_grows(recipes, o, a, b - 1, x);
    }
}

/// Every selected recipe makes an item that no selected recipe before it
/// makes: the selection keeps no recipe whose outputs are all covered already.
pub proof fn lemma_selection_keeps_no_redundant(recipes: Seq<Recipe>, o: Seq<usize>, m: int)
    requires
        forall|i: int, j: int| 0 <= i < j < recipes.len() ==> recipes[i].unique_id != recipes[j].unique_id,
        is_priority_order(recipes, o),
        0 <= m < greedy_selection(recipes, o).len(),
    ensures
        exists|x: ItemId|
            #[trigger] has_key(greedy_selection(recipes, o)[m].output, x) && forall|m2: int|
                0 <= m2 < m ==> !has_key(#[trigger] greedy_selection(recipes, o)[m2].output, x),
{
    let v = o.map_values(|q: usize| recipes[q as int]@);
    let keep = |r: RecipeView| pioneer_id(recipes, o, r.unique_id);
    let sel = greedy_selection(recipes, o);
    let f = lemma_filter_positions(v, keep);
    assert(sel == v.filter(keep));
    assert forall|a: int| 0 <= a < f.len() implies pioneer(recipes, o, #[trigger] f[a]) by {
        assert(keep(v[f[a]]));
        let k = choose|k: int| 0 <= k < o.len() && pioneer(recipes, o, k) && #[trigger] recipes[o[k] as int].unique_id
            == v[f[a]].unique_id;
        if o[k] < o[f[a]] {
            assert(recipes[o[k] as int].unique_id != recipes[o[f[a]] as int].unique_id);
        } else if o[k] > o[f[a]] {
            assert(recipes[o[f[a]] as int].unique_id != recipes[o[k] as int].unique_id);
        }
    }
    let km = f[m];
    assert(pioneer(recipes, o, km));
    let before = pioneer_outputs(recipes, o, km as nat);
    let r = recipes[o[km] as int]@;
    let q = choose|q: int| 0 <= q < r.output.len() && !before.contains(#[trigger] r.output[q].0);
    let x = r.output[q].0;
    assert(sel[m] == v[km]);
    assert(has_key(sel[m].output, x));
    assert forall|m2: int| 0 <= m2 < m implies !has_key(#[trigger] sel[m2].output, x) by {
        if has_key(sel[m2].output, x) {
            let k2 = f[m2];
            assert(k2 < km);
            assert(sel[m2] == v[k2]);
            lemma_outputs_seen(recipes, o, k2 + 1, k2, x);
            lemma_seen_grows(recipes, o, k2 + 1, km, x);
        }
    }
}

} // verus!
