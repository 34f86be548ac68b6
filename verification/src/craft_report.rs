//! The whole answer to a crafting request: the largest craftable amount, and
//! either an executable plan or the base items the start lacks.
use vstd::prelude::*;
use crate::crafting_domain::{CraftingSolution, ItemSet, Recipe, RecipeView};
use crate::crafting_solver::{
    analysis_fails, attempt_ok, compute_max_craftable_target_amount, compute_required_base_items, executable_plan,
    find_executable_solution_via_cycle_elimination, first_attempt_plannable, reported_max, reports_deficits,
    search_found, search_gave_up, without_ids,
};

verus! {

/// What a crafting request comes to.
pub enum CraftReport {
    /// Nothing more of the first target item can be crafted: what the start lacks.
    NotCraftable { required: ItemSet },
    /// A solution and a plan that carries it out.
    Executable { solution: CraftingSolution, plan: Vec<(Recipe, usize)> },
    /// No executable plan was found: the recipes kept once the search's
    /// held-back identities are left out, and what the start lacks with them.
    Fallback { retained: Vec<Recipe>, required: ItemSet },
}

/// The views of the recipes.
pub open spec fn views_of(recipes: Seq<Recipe>) -> Seq<RecipeView> {
    recipes.map_values(|r: Recipe| r@)
}

/// A copy of the recipes.
fn copy_recipes(recipes: &Vec<Recipe>) -> (c: Vec<Recipe>)
    ensures
        views_of(c@) == views_of(recipes@),
{
    let mut c: Vec<Recipe> = Vec::new();
    let mut k: usize = 0;
    while k < recipes.len()
        invariant
            k <= recipes.len(),
            c@.len() == k,
            forall|i: int| 0 <= i < k ==> (#[trigger] c@[i])@ == recipes@[i]@,
        decreases recipes.len() - k,
    {
        let ghost before = c@;
        c.push(recipes[k].clone());
        proof {
            assert forall|i: int| 0 <= i < k + 1 implies (#[trigger] c@[i])@ == recipes@[i]@ by {
                if i < k {
                    assert(c@[i] == before[i]);
                }
            }
        }
        k = k + 1;
    }
    assert(views_of(c@) =~= views_of(recipes@));
    c
}

/// Answers a crafting request: the largest additional amount of the first
/// target item; when it is 0, the base items the start lacks; otherwise an
/// executable plan or, when the search finds none, the base items the start
/// lacks for the recipes left after the search's held-back identities.
/// `None` in place of a report where the base-item analysis gives none.
/// Each answer is that of the function that computes it, on a copy of the
/// recipes (a copy has the same recipe views).
#[verifier::spinoff_prover]
#[verifier::rlimit(80)]
pub fn craft_or_report(recipes: Vec<Recipe>, starting_items: ItemSet, target: ItemSet) -> (r: (usize, Option<CraftReport>))
    requires
        target@.len() > 0,
    ensures
        exists|c: Seq<Recipe>| #![trigger views_of(c)] views_of(c) == views_of(recipes@) && reported_max(c, starting_items@, target@, r.0 as int),
        r.0 == 0 ==> match r.1 {
            Some(CraftReport::NotCraftable { required }) => reports_deficits(recipes@, starting_items@, target@, required@),
            None => analysis_fails(recipes@, starting_items@, target@),
            Some(_) => false,
        },
        r.0 > 0 ==> match r.1 {
            Some(CraftReport::NotCraftable { .. }) => false,
            Some(CraftReport::Executable { solution, plan }) => executable_plan(
                recipes@,
                starting_items@,
                solution.recipe_values@,
                plan@,
            ) && search_found(recipes@, starting_items@, target@, solution.recipe_values@),
            Some(CraftReport::Fallback { retained, required }) => exists|ids: Seq<usize>, k: Seq<Recipe>|
                #![trigger search_gave_up(recipes@, starting_items@, target@, ids), views_of(k)]
                search_gave_up(recipes@, starting_items@, target@, ids) && attempt_ok(recipes@, ids) && views_of(retained@)
                    == views_of(recipes@).filter(|v: RecipeView| !ids.contains(v.unique_id)) && views_of(k) == views_of(
                    retained@,
                ) && reports_deficits(k, starting_items@, target@, required@),
            None => exists|ids: Seq<usize>, k: Seq<Recipe>|
                #![trigger search_gave_up(recipes@, starting_items@, target@, ids), views_of(k)]
                search_gave_up(recipes@, starting_items@, target@, ids) && attempt_ok(recipes@, ids) && views_of(k)
                    == views_of(recipes@).filter(|v: RecipeView| !ids.contains(v.unique_id)) && analysis_fails(
                    k,
                    starting_items@,
                    target@,
                ),
        },
        r.0 > 0 && first_attempt_plannable(recipes@, starting_items@, target@) ==> r.1 matches Some(
            CraftReport::Executable { .. },
        ),
{
    let for_max = copy_recipes(&recipes);
    let ghost maxed = for_max@;
    let max = compute_max_craftable_target_amount(for_max, starting_items.clone(), target.clone());
    assert(views_of(maxed) == views_of(recipes@) && reported_max(maxed, starting_items@, target@, max as int));
    if max == 0 {
        let required = compute_required_base_items(recipes, starting_items, target);
        return match required {
            Some(req) => (0, Some(CraftReport::NotCraftable { required: req })),
            None => (0, None),
        };
    }
    let for_later = copy_recipes(&recipes);
    let ghost given = recipes@;
    match find_executable_solution_via_cycle_elimination(recipes, starting_items.clone(), target.clone()) {
        Ok((solution, plan)) => (max, Some(CraftReport::Executable { solution, plan })),
        Err(ids) => {
            let retained = without_ids(&for_later, &ids);
            let kept = copy_recipes(&retained);
            let ghost kept_view = kept@;
            proof {
                assert(attempt_ok(given, ids@));
                assert(views_of(retained@) == views_of(given).filter(|v: RecipeView| !ids@.contains(v.unique_id)));
                assert(views_of(kept_view) == views_of(retained@));
            }
            match compute_required_base_items(kept, starting_items, target) {
                Some(req) => (max, Some(CraftReport::Fallback { retained, required: req })),
                None => (max, None),
            }
        },
    }
}

} // verus!
