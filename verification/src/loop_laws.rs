//! Which recipe identities lie on a loop does not depend on the order in
//! which the recipes are listed.
use vstd::prelude::*;
use crate::crafting_domain::Recipe;
use crate::keyed_entries::{count_of, has_key};
use crate::lex_order::{lex_lt, lemma_lex_asymmetric, lemma_lex_total, lemma_lex_transitive, usize_ints};
use crate::recipe_analysis::{
    cycle_form, edge, least_rotation, least_rotation_of, loops_describe, no_duplicates, on_some_loop, rotate,
    simple_cycle,
};

verus! {

/// Some recipe with identity `id` lies on a simple cycle of the recipes.
pub open spec fn id_on_cycle(recipes: Seq<Recipe>, id: usize) -> bool {
    exists|c: Seq<usize>, k: int|
        #![trigger simple_cycle(recipes, c), c[k]]
        simple_cycle(recipes, c) && 0 <= k < c.len() && recipes[c[k] as int].unique_id == id
}

/// `sigma` lists, for each position of `perm`, the position of `recipes` that
/// holds the same recipe, and every position of `recipes` once.
pub open spec fn is_permutation(recipes: Seq<Recipe>, perm: Seq<Recipe>, sigma: Seq<usize>) -> bool {
    &&& perm.len() == recipes.len()
    &&& recipes.len() <= usize::MAX
    &&& sigma.len() == perm.len()
    &&& no_duplicates(sigma)
    &&& forall|i: int| 0 <= i < sigma.len() ==> #[trigger] sigma[i] < recipes.len() && perm[i]@ == recipes[sigma[i] as int]@
    &&& forall|j: usize| j < recipes.len() ==> #[trigger] sigma.contains(j)
}

/// The rotations of a non-empty sequence that come first: among the first `t`
/// rotations there is one that none of them comes before.
proof fn lemma_least_among(c: Seq<usize>, t: int) -> (s: int)
    requires
        1 <= t <= c.len(),
    ensures
        0 <= s < t,
        forall|q: int| 0 <= q < t ==> !lex_lt(usize_ints(#[trigger] rotate(c, q)), usize_ints(rotate(c, s))),
    decreases t,
{
    if t == 1 {
        lemma_lex_irreflexive_at(c, 0);
        0
    } else {
        let s0 = lemma_least_among(c, t - 1);
        let a = usize_ints(rotate(c, t - 1));
        let b = usize_ints(rotate(c, s0));
        lemma_lex_total(a, b);
        if lex_lt(a, b) {
            assert forall|q: int| 0 <= q < t implies !lex_lt(usize_ints(#[trigger] rotate(c, q)), a) by {
                if q < t - 1 {
                    if lex_lt(usize_ints(rotate(c, q)), a) {
                        lemma_lex_transitive(usize_ints(rotate(c, q)), a, b);
                    }
                } else {
                    lemma_lex_irreflexive_at(c, q);
                }
            }
            t - 1
        } else {
            assert forall|q: int| 0 <= q < t implies !lex_lt(usize_ints(#[trigger] rotate(c, q)), b) by {
                if q == t - 1 {
                    if a != b {
                        lemma_lex_asymmetric(b, a);
                    } else {
                        crate::lex_order::lemma_lex_irreflexive(b);
                    }
                }
            }
            s0
        }
    }
}

proof fn lemma_lex_irreflexive_at(c: Seq<usize>, q: int)
    ensures
        !lex_lt(usize_ints(rotate(c, q)), usize_ints(rotate(c, q))),
{
    crate::lex_order::lemma_lex_irreflexive(usize_ints(rotate(c, q)));
}

/// Every element of a sequence is in each of its rotations.
proof fn lemma_rotation_keeps(c: Seq<usize>, s: int, k: int)
    requires
        0 <= s < c.len(),
        0 <= k < c.len(),
    ensures
        rotate(c, s).contains(c[k]),
{
    let r = rotate(c, s);
    if k >= s {
        assert(r[k - s] == c[k]);
    } else {
        assert(r[c.len() - s + k] == c[k]);
    }
}

/// Every element of a rotation is in the sequence.
proof fn lemma_rotation_within(c: Seq<usize>, s: int, i: int)
    requires
        0 <= s < c.len(),
        0 <= i < c.len(),
    ensures
        exists|k: int| 0 <= k < c.len() && c[k] == #[trigger] rotate(c, s)[i],
{
    let r = rotate(c, s);
    if i < c.len() - s {
        assert(r[i] == c[s + i]);
    } else {
        assert(r[i] == c[i - (c.len() - s)]);
    }
}

/// The loop table marks an identity exactly when one of its recipes lies on a
/// simple cycle.
pub proof fn lemma_table_by_cycles(
    recipes: Seq<Recipe>,
    found: Seq<Seq<usize>>,
    in_loop: Seq<(usize, bool)>,
    loops: Seq<Vec<Recipe>>,
    id: usize,
)
    requires
        loops_describe(recipes, found, in_loop, loops),
    ensures
        on_some_loop(recipes, found, id) == id_on_cycle(recipes, id),
{
    if on_some_loop(recipes, found, id) {
        let (m, k) = choose|m: int, k: int|
            0 <= m < found.len() && 0 <= k < found[m].len() && #[trigger] recipes[found[m][k] as int].unique_id == id;
        assert(cycle_form(recipes, found[m]));
        let c = choose|c: Seq<usize>| simple_cycle(recipes, c) && least_rotation(c, found[m]);
        let s = choose|s: int| 0 <= s < c.len() && found[m] == rotate(c, s);
        lemma_rotation_within(c, s, k);
        let q = choose|q: int| 0 <= q < c.len() && c[q] == #[trigger] rotate(c, s)[k];
        assert(simple_cycle(recipes, c) && recipes[c[q] as int].unique_id == id);
    }
    if id_on_cycle(recipes, id) {
        let (c, k) = choose|c: Seq<usize>, k: int|
            #![trigger simple_cycle(recipes, c), c[k]]
            simple_cycle(recipes, c) && 0 <= k < c.len() && recipes[c[k] as int].unique_id == id;
        let s = lemma_least_among(c, c.len() as int);
        assert(least_rotation(c, rotate(c, s)));
        crate::recipe_analysis::lemma_least_rotation_unique(c, rotate(c, s));
        assert(found.contains(least_rotation_of(c)));
        let m = choose|m: int| 0 <= m < found.len() && found[m] == least_rotation_of(c);
        lemma_rotation_keeps(c, s, k);
        let i = choose|i: int| 0 <= i < rotate(c, s).len() && rotate(c, s)[i] == c[k];
        assert(recipes[found[m][i] as int].unique_id == id);
    }
}

/// A simple cycle of the permuted list is one of the original list, position
/// by position through `sigma`, through the same identities.
proof fn lemma_cycle_through(recipes: Seq<Recipe>, perm: Seq<Recipe>, sigma: Seq<usize>, id: usize)
    requires
        is_permutation(recipes, perm, sigma),
        id_on_cycle(perm, id),
    ensures
        id_on_cycle(recipes, id),
{
    let (c, k) = choose|c: Seq<usize>, k: int|
        #![trigger simple_cycle(perm, c), c[k]]
        simple_cycle(perm, c) && 0 <= k < c.len() && perm[c[k] as int].unique_id == id;
    let d = c.map_values(|p: usize| sigma[p as int]);
    assert forall|a: int| 0 <= a < d.len() implies #[trigger] d[a] < recipes.len() by {
        assert(c[a] < perm.len());
    }
    assert forall|a: int, b: int| 0 <= a < b < d.len() implies d[a] != d[b] by {
        assert(c[a] != c[b]);
        if c[a] < c[b] {
            assert(sigma[c[a] as int] != sigma[c[b] as int]);
        } else {
            assert(sigma[c[b] as int] != sigma[c[a] as int]);
        }
    }
    assert forall|a: int| 0 <= a < d.len() - 1 implies edge(recipes, #[trigger] d[a], d[a + 1]) by {
        assert(edge(perm, c[a], c[a + 1]));
        assert(perm[c[a] as int]@ == recipes[d[a] as int]@);
        assert(perm[c[a + 1] as int]@ == recipes[d[a + 1] as int]@);
    }
    assert(edge(recipes, d.last(), d[0])) by {
        assert(edge(perm, c.last(), c[0]));
        assert(perm[c.last() as int]@ == recipes[d.last() as int]@);
        assert(perm[c[0] as int]@ == recipes[d[0] as int]@);
    }
    assert(simple_cycle(recipes, d));
    assert(perm[c[k] as int]@ == recipes[d[k] as int]@);
}

/// `sigma` read backwards is a permutation the other way round.
proof fn lemma_inverse(recipes: Seq<Recipe>, perm: Seq<Recipe>, sigma: Seq<usize>) -> (tau: Seq<usize>)
    requires
        is_permutation(recipes, perm, sigma),
    ensures
        is_permutation(perm, recipes, tau),
{
    let n = recipes.len();
    let tau = Seq::new(n, |j: int| (choose|i: int| 0 <= i < sigma.len() && #[trigger] sigma[i] == j as usize) as usize);
    assert forall|j: int| 0 <= j < n implies #[trigger] tau[j] < perm.len() && recipes[j]@ == perm[tau[j] as int]@
        && sigma[tau[j] as int] == j by {
        assert(sigma.contains(j as usize));
        let i = choose|i: int| 0 <= i < sigma.len() && #[trigger] sigma[i] == j as usize;
        assert(tau[j] == i as usize);
        assert(sigma[i] < recipes.len() && perm[i]@ == recipes[sigma[i] as int]@);
        assert(sigma[i] as int == j);
    }
    assert forall|a: int, b: int| 0 <= a < b < tau.len() implies tau[a] != tau[b] by {
        assert(sigma[tau[a] as int] == a && sigma[tau[b] as int] == b);
    }
    assert forall|i: usize| i < perm.len() implies #[trigger] tau.contains(i) by {
        let j = sigma[i as int] as int;
        assert(sigma[tau[j] as int] == j);
        if tau[j] != i {
            let t = tau[j] as int;
            if t < i {
                assert(sigma[t] != sigma[i as int]);
            } else {
                assert(sigma[i as int] != sigma[t]);
            }
        }
        assert(tau[j] == i);
    }
    tau
}

/// Listing the recipes in another order leaves the loop table as it is: the
/// same identities, each marked the same.
pub proof fn lemma_loop_table_order_free(
    recipes: Seq<Recipe>,
    perm: Seq<Recipe>,
    sigma: Seq<usize>,
    found: Seq<Seq<usize>>,
    in_loop: Seq<(usize, bool)>,
    loops: Seq<Vec<Recipe>>,
    found2: Seq<Seq<usize>>,
    in_loop2: Seq<(usize, bool)>,
    loops2: Seq<Vec<Recipe>>,
)
    requires
        is_permutation(recipes, perm, sigma),
        loops_describe(recipes, found, in_loop, loops),
        loops_describe(perm, found2, in_loop2, loops2),
    ensures
        forall|id: usize| #[trigger] has_key(in_loop, id) == has_key(in_loop2, id),
        forall|p: int, q: int|
            0 <= p < in_loop.len() && 0 <= q < in_loop2.len() && (#[trigger] in_loop[p]).0 == (#[trigger] in_loop2[q]).0
                ==> in_loop[p].1 == in_loop2[q].1,
{
    let tau = lemma_inverse(recipes, perm, sigma);
    assert forall|id: usize| #[trigger] has_key(in_loop, id) == has_key(in_loop2, id) by {
        if has_key(in_loop, id) {
            let j = choose|j: int| 0 <= j < recipes.len() && recipes[j].unique_id == id;
            assert(perm[tau[j] as int]@ == recipes[j]@);
            assert(perm[tau[j] as int].unique_id == id);
        }
        if has_key(in_loop2, id) {
            let i = choose|i: int| 0 <= i < perm.len() && perm[i].unique_id == id;
            assert(recipes[sigma[i] as int]@ == perm[i]@);
            assert(recipes[sigma[i] as int].unique_id == id);
        }
    }
    assert forall|p: int, q: int|
        0 <= p < in_loop.len() && 0 <= q < in_loop2.len() && (#[trigger] in_loop[p]).0 == (#[trigger] in_loop2[q]).0
            implies in_loop[p].1 == in_loop2[q].1 by {
        let id = in_loop[p].0;
        lemma_table_by_cycles(recipes, found, in_loop, loops, id);
        lemma_table_by_cycles(perm, found2, in_loop2, loops2, id);
        if id_on_cycle(perm, id) {
            lemma_cycle_through(recipes, perm, sigma, id);
        }
        if id_on_cycle(recipes, id) {
            lemma_cycle_through(perm, recipes, tau, id);
        }
    }
}

/// Recipes at the distinct positions `c`, each making an item that the next
/// one (and the last, the first) needs at least one of, wherever that item
/// stands among the next one's inputs.
pub open spec fn feeding_ring(recipes: Seq<Recipe>, c: Seq<usize>) -> bool {
    &&& c.len() >= 2
    &&& forall|k: int| 0 <= k < c.len() ==> #[trigger] c[k] < recipes.len()
    &&& no_duplicates(c)
    &&& forall|k: int| 0 <= k < c.len() - 1 ==> exists|x: usize|
        has_key(recipes[#[trigger] c[k] as int].output@, x) && count_of(recipes[c[k + 1] as int].input@, x) > 0
    &&& exists|x: usize| has_key(recipes[c.last() as int].output@, x) && count_of(recipes[c[0] as int].input@, x) > 0
}

/// A simple cycle is a feeding ring and the other way round.
proof fn lemma_ring_is_cycle(recipes: Seq<Recipe>, c: Seq<usize>)
    ensures
        feeding_ring(recipes, c) == simple_cycle(recipes, c),
{
    assert forall|a: usize, b: usize| a < recipes.len() && b < recipes.len() implies edge(recipes, a, b) == exists|x: usize|
        has_key(recipes[a as int].output@, x) && count_of(recipes[b as int].input@, x) > 0 by {
        if edge(recipes, a, b) {
            let q = choose|q: int| 0 <= q < recipes[a as int]@.output.len() && count_of(
                recipes[b as int]@.input,
                #[trigger] recipes[a as int]@.output[q].0,
            ) > 0;
            let x = recipes[a as int].output@[q].0;
            assert(has_key(recipes[a as int].output@, x));
        }
        if exists|x: usize| has_key(recipes[a as int].output@, x) && count_of(recipes[b as int].input@, x) > 0 {
            let x = choose|x: usize| has_key(recipes[a as int].output@, x) && count_of(recipes[b as int].input@, x) > 0;
            let q = choose|q: int| 0 <= q < recipes[a as int].output@.len() && #[trigger] recipes[a as int].output@[q].0 == x;
            assert(crate::recipe_analysis::feeds(recipes[a as int]@, recipes[b as int]@));
        }
    }
    if feeding_ring(recipes, c) {
        assert forall|k: int| 0 <= k < c.len() - 1 implies edge(recipes, #[trigger] c[k], c[k + 1]) by {
            assert(c[k] < recipes.len() && c[k + 1] < recipes.len());
        }
        assert(c.last() == c[c.len() - 1]);
    }
    if simple_cycle(recipes, c) {
        assert forall|k: int| 0 <= k < c.len() - 1 implies exists|x: usize|
            has_key(recipes[#[trigger] c[k] as int].output@, x) && count_of(recipes[c[k + 1] as int].input@, x) > 0 by {
            assert(edge(recipes, c[k], c[k + 1]));
        }
        assert(c.last() == c[c.len() - 1]);
    }
}

/// The loop table marks an identity exactly when a recipe of that identity
/// lies on a feeding ring: recipes each making an item that the next needs,
/// the last feeding the first.
pub proof fn lemma_loop_table_marks_feeding_rings(
    recipes: Seq<Recipe>,
    found: Seq<Seq<usize>>,
    in_loop: Seq<(usize, bool)>,
    loops: Seq<Vec<Recipe>>,
    p: int,
)
    requires
        loops_describe(recipes, found, in_loop, loops),
        0 <= p < in_loop.len(),
    ensures
        in_loop[p].1 <==> exists|c: Seq<usize>, k: int|
            #![trigger feeding_ring(recipes, c), c[k]]
            feeding_ring(recipes, c) && 0 <= k < c.len() && recipes[c[k] as int].unique_id == in_loop[p].0,
{
    let id = in_loop[p].0;
    lemma_table_by_cycles(recipes, found, in_loop, loops, id);
    if id_on_cycle(recipes, id) {
        let (c, k) = choose|c: Seq<usize>, k: int|
            #![trigger simple_cycle(recipes, c), c[k]]
            simple_cycle(recipes, c) && 0 <= k < c.len() && recipes[c[k] as int].unique_id == id;
        lemma_ring_is_cycle(recipes, c);
        assert(feeding_ring(recipes, c));
    }
    if exists|c: Seq<usize>, k: int|
        #![trigger feeding_ring(recipes, c), c[k]]
        feeding_ring(recipes, c) && 0 <= k < c.len() && recipes[c[k] as int].unique_id == id {
        let (c, k) = choose|c: Seq<usize>, k: int|
            #![trigger feeding_ring(recipes, c), c[k]]
            feeding_ring(recipes, c) && 0 <= k < c.len() && recipes[c[k] as int].unique_id == id;
        lemma_ring_is_cycle(recipes, c);
        assert(simple_cycle(recipes, c));
    }
}

/// The position in `c` of element `i` of its rotation from `s`.
spec fn rot_index(n: int, s: int, i: int) -> int {
    if s + i < n {
        s + i
    } else {
        s + i - n
    }
}

/// A rotation of a simple cycle is a simple cycle.
proof fn lemma_rotation_is_cycle(recipes: Seq<Recipe>, c: Seq<usize>, s: int)
    requires
        simple_cycle(recipes, c),
        0 <= s < c.len(),
    ensures
        simple_cycle(recipes, rotate(c, s)),
{
    let n = c.len() as int;
    let r = rotate(c, s);
    assert(r.len() == n);
    assert forall|i: int| 0 <= i < n implies #[trigger] r[i] == c[rot_index(n, s, i)] by {}
    assert forall|k: int| 0 <= k < n implies #[trigger] r[k] < recipes.len() by {
        assert(r[k] == c[rot_index(n, s, k)]);
    }
    assert forall|a: int, b: int| 0 <= a < b < n implies r[a] != r[b] by {
        let ia = rot_index(n, s, a);
        let ib = rot_index(n, s, b);
        assert(r[a] == c[ia] && r[b] == c[ib]);
        assert(ia != ib);
        if ia < ib {
            assert(c[ia] != c[ib]);
        } else {
            assert(c[ib] != c[ia]);
        }
    }
    assert forall|k: int| 0 <= k < n - 1 implies edge(recipes, #[trigger] r[k], r[k + 1]) by {
        let ik = rot_index(n, s, k);
        assert(r[k] == c[ik] && r[k + 1] == c[rot_index(n, s, k + 1)]);
        if ik == n - 1 {
            assert(rot_index(n, s, k + 1) == 0);
            assert(edge(recipes, c.last(), c[0]));
        } else {
            assert(rot_index(n, s, k + 1) == ik + 1);
            assert(edge(recipes, c[ik], c[ik + 1]));
        }
    }
    assert(edge(recipes, r.last(), r[0])) by {
        assert(r[n - 1] == c[rot_index(n, s, n - 1)]);
        assert(r[0] == c[s]);
        if s == 0 {
            assert(rot_index(n, s, n - 1) == n - 1);
            assert(edge(recipes, c.last(), c[0]));
        } else {
            assert(rot_index(n, s, n - 1) == s - 1);
            assert(edge(recipes, c[s - 1], c[s]));
        }
    }
}

/// Every loop the report lists is a feeding ring: its recipes, in the order
/// listed, each make an item that the next one needs, and the last feeds the
/// first.
pub proof fn lemma_reported_loops_are_feeding_rings(
    recipes: Seq<Recipe>,
    found: Seq<Seq<usize>>,
    in_loop: Seq<(usize, bool)>,
    loops: Seq<Vec<Recipe>>,
    m: int,
)
    requires
        loops_describe(recipes, found, in_loop, loops),
        0 <= m < found.len(),
    ensures
        feeding_ring(recipes, found[m]),
        loops[m]@.len() == found[m].len(),
        forall|k: int| 0 <= k < found[m].len() ==> (#[trigger] loops[m]@[k])@ == recipes[found[m][k] as int]@,
{
    assert(cycle_form(recipes, found[m]));
    let c = choose|c: Seq<usize>| simple_cycle(recipes, c) && least_rotation(c, found[m]);
    let s = choose|s: int| 0 <= s < c.len() && found[m] == rotate(c, s);
    lemma_rotation_is_cycle(recipes, c, s);
    lemma_ring_is_cycle(recipes, found[m]);
    assert(crate::recipe_analysis::lists_recipes_at(recipes, found[m], loops[m]@));
}

} // verus!
