use rs_crafter_sim::craft_report::{craft_or_report, CraftReport};
use std::time::Duration;

use rs_crafter_sim::crafting_domain::{item_display_name, CraftingSolution, ItemSet, Recipe, RecipePriorityKey};
use rs_crafter_sim::crafting_solver::{
    collect_deficits, compute_max_craftable_target_amount, compute_required_base_items, craftable_amount_from_usage,
    find_executable_solution_via_cycle_elimination, loop_breaking_choices, solution_from_usage,
};
use rs_crafter_sim::demo_scenarios::{
    build_demo_scenario, build_loop_stress_scenario, build_sat_scenario, build_stress_scenario,
};
use rs_crafter_sim::execution_planner::build_executable_plan_from_recipe_usage;
use rs_crafter_sim::progress_logger::PeriodicLogger;
use rs_crafter_sim::recipe_analysis::{
    collect_non_producible_items, collect_relevant_item_ids, detect_recipe_cycles,
    prioritize_and_prune_relevant_recipes_and_items, select_top_priority_recipes_per_output_item,
};

fn chain_recipes() -> Vec<Recipe> {
    vec![
        Recipe::from_single_transform(0, 1, 1, 1, 0),
        Recipe::from_single_transform(1, 2, 2, 1, 0),
    ]
}

#[test]
fn item_names_cover_named_stress_and_unknown_ids() {
    assert_eq!(item_display_name(0), "Cobblestone");
    assert_eq!(item_display_name(4), "Diamond");
    assert_eq!(item_display_name(5), "Unknown");
    assert_eq!(item_display_name(100), "Alpha");
    assert_eq!(item_display_name(124), "OmegaPrime");
    assert_eq!(item_display_name(125), "Unknown");
}

#[test]
fn item_set_merges_repeated_ids_in_first_seen_order() {
    let set = ItemSet::from_item_counts(vec![(1, 2), (3, 4), (1, 5)]);
    assert_eq!(set.items, vec![(1, 7), (3, 4)]);
    assert_eq!(set.count(1), 7);
    assert_eq!(set.count(9), 0);
    assert!(set.contains(3));
    assert!(!set.contains(9));
    assert_eq!(set.len(), 2);
}

#[test]
fn item_set_add_and_subtract_counts() {
    let mut set = ItemSet::from_item_counts(vec![(1, 2)]);
    set.add_count(1, 3);
    set.add_count(4, 1);
    assert_eq!(set.items, vec![(1, 5), (4, 1)]);
    set.subtract_count(1, 5);
    assert_eq!(set.count(1), 0);
    assert!(set.contains(1));
}

#[test]
fn priority_keys_order_lexicographically_with_prefix_first() {
    let shorter = RecipePriorityKey(vec![2]);
    let longer = RecipePriorityKey(vec![2, 0]);
    let smaller_first = RecipePriorityKey(vec![0, 5]);
    let larger_first = RecipePriorityKey(vec![1]);
    assert!(shorter.precedes(&longer));
    assert!(!longer.precedes(&shorter));
    assert!(smaller_first.precedes(&larger_first));
    assert!(!shorter.precedes(&shorter.clone()));
}

#[test]
fn priority_key_appends_recipe_base_priority() {
    let recipe = Recipe::from_single_transform(0, 1, 1, 1, -7);
    let mut key = RecipePriorityKey(vec![3]);
    key.append_recipe_priority(&recipe);
    assert_eq!(key.0, vec![3, -7]);
}

#[test]
fn recipe_description_lists_inputs_then_outputs() {
    let recipe = Recipe::from_transform(vec![(2, 1), (0, 1)], vec![(3, 2)], 10);
    assert_eq!(recipe.describe(), "Sand x1 + Cobblestone x1 -> Glass x2");
    let unknown = Recipe::from_single_transform(9, 3, 100, 12, 0);
    assert_eq!(unknown.describe(), "Unknown x3 -> Alpha x12");
}

#[test]
fn recipe_identity_follows_content() {
    let a = Recipe::from_transform(vec![(0, 1)], vec![(1, 1)], 4);
    let b = Recipe::from_single_transform(0, 1, 1, 1, 4);
    assert_eq!(a.unique_id, b.unique_id);
    assert!(a == b);
    assert_eq!(a.effective_priority, None);
    assert_eq!(a.clone().unique_id, a.unique_id);
}

#[test]
fn single_transform_converts_counts_like_a_cast() {
    let recipe = Recipe::from_single_transform(0, -1, 1, 3, 0);
    assert_eq!(recipe.input.items, vec![(0, usize::MAX)]);
    assert_eq!(recipe.output.items, vec![(1, 3)]);
}

#[test]
fn relevant_items_are_target_recipe_and_extra_items() {
    let recipes = vec![Recipe::from_single_transform(0, 1, 1, 1, 0)];
    let target = ItemSet::from_item_counts(vec![(2, 1)]);
    let ids = collect_relevant_item_ids(&recipes, &target, &vec![5, 1]);
    assert_eq!(ids, vec![2, 1, 0, 5]);
}

#[test]
fn non_producible_items_keep_the_given_order() {
    let recipes = vec![Recipe::from_single_transform(0, 1, 1, 1, 0)];
    let items = collect_non_producible_items(&recipes, &vec![2, 1, 0, 5]);
    assert_eq!(items, vec![2, 0, 5]);
}

#[test]
fn top_priority_selection_drops_lower_priority_producers() {
    let mut first = Recipe::from_single_transform(0, 1, 1, 1, 0);
    first.effective_priority = Some(1);
    let mut preferred = Recipe::from_single_transform(2, 1, 1, 1, 0);
    preferred.effective_priority = Some(0);
    let selected = select_top_priority_recipes_per_output_item(&vec![first.clone(), preferred.clone()]);
    assert_eq!(selected.len(), 1);
    assert_eq!(selected[0].unique_id, preferred.unique_id);
}

#[test]
fn prioritize_ranks_demo_recipes_by_route_key() {
    let (recipes, _, target) = build_demo_scenario();
    let (ranked, items) = prioritize_and_prune_relevant_recipes_and_items(&recipes, &target);
    let ids: Vec<usize> = ranked.iter().map(|r| r.unique_id).collect();
    let expected: Vec<usize> = [3, 4, 2, 1, 0].iter().map(|&k| recipes[k].unique_id).collect();
    assert_eq!(ids, expected);
    let ranks: Vec<Option<isize>> = ranked.iter().map(|r| r.effective_priority).collect();
    assert_eq!(ranks, vec![Some(0), Some(1), Some(2), Some(3), Some(4)]);
    assert_eq!(items, vec![3, 0, 4, 2, 1]);
}

#[test]
fn prioritize_prunes_recipes_unrelated_to_the_target() {
    let recipes = vec![
        Recipe::from_single_transform(0, 1, 1, 1, 0),
        Recipe::from_single_transform(5, 1, 6, 1, 0),
    ];
    let target = ItemSet::from_item_counts(vec![(1, 1)]);
    let (ranked, items) = prioritize_and_prune_relevant_recipes_and_items(&recipes, &target);
    assert_eq!(ranked.len(), 1);
    assert_eq!(ranked[0].unique_id, recipes[0].unique_id);
    assert_eq!(items, vec![1, 0]);
}

#[test]
fn cycle_detection_reports_each_loop_once() {
    let recipes = vec![
        Recipe::from_single_transform(0, 1, 1, 1, 0),
        Recipe::from_single_transform(1, 1, 0, 1, 0),
        Recipe::from_single_transform(1, 1, 2, 1, 0),
    ];
    let (in_loop, loops) = detect_recipe_cycles(&recipes);
    assert_eq!(loops.len(), 1);
    let loop_ids: Vec<usize> = loops[0].iter().map(|r| r.unique_id).collect();
    assert_eq!(loop_ids, vec![recipes[0].unique_id, recipes[1].unique_id]);
    for (id, flag) in &in_loop {
        let expected = *id != recipes[2].unique_id;
        assert_eq!(*flag, expected);
    }
    assert_eq!(in_loop.len(), 3);
}

#[test]
fn cycle_detection_finds_nothing_in_a_chain() {
    let (in_loop, loops) = detect_recipe_cycles(&chain_recipes());
    assert!(loops.is_empty());
    assert!(in_loop.iter().all(|(_, flag)| !flag));
}

#[test]
fn plan_orders_batches_so_each_step_is_craftable() {
    let recipes = chain_recipes();
    let usage = vec![(recipes[0].unique_id, 2), (recipes[1].unique_id, 1)];
    let start = ItemSet::from_item_counts(vec![(0, 2)]);
    let plan = build_executable_plan_from_recipe_usage(&recipes, &usage, &start).unwrap();
    let steps: Vec<(usize, usize)> = plan.iter().map(|(r, n)| (r.unique_id, *n)).collect();
    assert_eq!(steps, vec![(recipes[0].unique_id, 2), (recipes[1].unique_id, 1)]);
}

#[test]
fn plan_rejects_negative_usage() {
    let recipes = chain_recipes();
    let usage = vec![(recipes[0].unique_id, -1)];
    let start = ItemSet::from_item_counts(vec![(0, 2)]);
    let result = build_executable_plan_from_recipe_usage(&recipes, &usage, &start);
    assert!(result.is_err());
}

#[test]
fn plan_reports_blocked_recipes() {
    let recipes = chain_recipes();
    let usage = vec![(recipes[0].unique_id, 2), (recipes[1].unique_id, 1)];
    let start = ItemSet::from_item_counts(vec![]);
    let result = build_executable_plan_from_recipe_usage(&recipes, &usage, &start);
    assert_eq!(
        result.err().unwrap(),
        "No valid execution order could satisfy all solved usages. Remaining blocked recipes: Cobblestone x1 -> Gravel x1 (remaining 2), Gravel x2 -> Sand x1 (remaining 1)"
    );
}

#[test]
fn plan_with_no_usage_is_empty() {
    let recipes = chain_recipes();
    let start = ItemSet::from_item_counts(vec![]);
    let plan = build_executable_plan_from_recipe_usage(&recipes, &vec![], &start).unwrap();
    assert!(plan.is_empty());
}

#[test]
fn max_craftable_amount_uses_all_inputs() {
    let recipes = vec![Recipe::from_single_transform(0, 1, 1, 1, 0)];
    let start = ItemSet::from_item_counts(vec![(0, 5)]);
    let target = ItemSet::from_item_counts(vec![(1, 1)]);
    assert_eq!(compute_max_craftable_target_amount(recipes, start, target), 5);
}

#[test]
fn max_craftable_amount_is_zero_without_a_producer() {
    let recipes = vec![Recipe::from_single_transform(0, 1, 1, 1, 0)];
    let start = ItemSet::from_item_counts(vec![(0, 5)]);
    let target = ItemSet::from_item_counts(vec![(7, 1)]);
    assert_eq!(compute_max_craftable_target_amount(recipes, start, target), 0);
}

#[test]
fn executable_solution_for_a_chain() {
    let recipes = chain_recipes();
    let start = ItemSet::from_item_counts(vec![(0, 4)]);
    let target = ItemSet::from_item_counts(vec![(2, 1)]);
    let (solution, plan) = find_executable_solution_via_cycle_elimination(recipes.clone(), start, target).unwrap();
    assert_eq!(solution.recipe_usage_count(&recipes[0]), 2);
    assert_eq!(solution.recipe_usage_count(&recipes[1]), 1);
    assert_eq!(solution.relevant_item_ids, vec![0, 1, 2]);
    assert_eq!(solution.final_inventory_count(0), 2);
    assert_eq!(solution.final_inventory_count(1), 0);
    assert_eq!(solution.final_inventory_count(2), 1);
    let steps: Vec<(usize, usize)> = plan.iter().map(|(r, n)| (r.unique_id, *n)).collect();
    assert_eq!(steps, vec![(recipes[0].unique_id, 2), (recipes[1].unique_id, 1)]);
}

#[test]
fn executable_solution_fails_when_infeasible() {
    let recipes = chain_recipes();
    let start = ItemSet::from_item_counts(vec![(0, 1)]);
    let target = ItemSet::from_item_counts(vec![(2, 1)]);
    let result = find_executable_solution_via_cycle_elimination(recipes, start, target);
    assert_eq!(result.err().unwrap(), Vec::<usize>::new());
}

#[test]
fn solution_accessors_default_to_zero() {
    let solution = CraftingSolution {
        recipe_values: vec![(7, 3)],
        final_inventory_values: ItemSet::from_item_counts(vec![(1, 4)]),
        relevant_item_ids: vec![1],
    };
    let other = Recipe::from_single_transform(0, 1, 1, 1, 0);
    assert_eq!(solution.recipe_usage_count(&other), 0);
    assert_eq!(solution.final_inventory_count(1), 4);
    assert_eq!(solution.final_inventory_count(2), 0);
}

#[test]
fn demo_scenario_contents() {
    let (recipes, start, target) = build_demo_scenario();
    assert_eq!(recipes.len(), 5);
    assert_eq!(start.items, vec![(0, 5)]);
    assert_eq!(target.items, vec![(3, 11)]);
    assert_eq!(recipes[2].describe(), "Sand x1 + Cobblestone x1 -> Glass x2");
    assert_eq!(recipes[4].base_priority, -100000);
}

#[test]
fn stress_scenario_is_a_twenty_item_loop() {
    let (recipes, start, target) = build_stress_scenario();
    assert_eq!(recipes.len(), 20);
    assert_eq!(start.items, vec![(100, 1 << 20)]);
    assert_eq!(target.items, vec![(100, (1 << 20) + 32)]);
    assert_eq!(recipes[0].describe(), "Alpha x2 -> Beta x1");
    assert_eq!(recipes[19].describe(), "Upsilon x2 -> Alpha x1048577");
    let (_, loops) = detect_recipe_cycles(&recipes);
    assert_eq!(loops.len(), 1);
    assert_eq!(loops[0].len(), 20);
}

#[test]
fn sat_scenario_contents() {
    let (recipes, start, target) = build_sat_scenario();
    assert_eq!(recipes.len(), 18);
    assert_eq!(start.items, vec![(100, 1), (101, 1), (102, 1), (103, 1)]);
    assert_eq!(target.items, vec![(123, 1)]);
    assert_eq!(recipes[17].describe(), "Nu x1 + Xi x1 + Omicron x1 -> Omega x1");
}

#[test]
fn loop_stress_scenario_contents() {
    let (recipes, start, target) = build_loop_stress_scenario();
    assert_eq!(recipes.len(), 42);
    assert_eq!(start.items, vec![(100, 850), (103, 420), (107, 310), (112, 215), (119, 160), (124, 95)]);
    assert_eq!(target.items, vec![(100, 1300), (118, 420), (123, 260)]);
    assert_eq!(recipes[0].describe(), "Alpha x3 + Epsilon x1 -> Beta x5 + Theta x1");
}

#[test]
fn logger_reports_when_the_interval_has_passed() {
    let mut logger = PeriodicLogger::new(0);
    assert!(logger.heartbeat());
    logger.reset();
    logger.immediate();
    let _ = logger.elapsed_since_last_log();
}

#[test]
fn logger_stays_quiet_within_the_interval() {
    let mut logger = PeriodicLogger::new(3_600_000_000_000);
    assert!(!logger.heartbeat());
    assert!(logger.elapsed_since_last_log() < Duration::from_secs(3600));
}

/// Carries out a plan step by step, checking that every application finds its
/// inputs, and returns the inventory at the end.
fn replay_plan(start: &ItemSet, plan: &[(Recipe, usize)]) -> ItemSet {
    let mut inventory = start.clone();
    for (recipe, times) in plan {
        for _ in 0..*times {
            for &(item, count) in &recipe.input.items {
                assert!(inventory.count(item) >= count, "step {} lacks item {}", recipe.describe(), item);
                inventory.subtract_count(item, count);
            }
            for &(item, count) in &recipe.output.items {
                inventory.add_count(item, count);
            }
        }
    }
    inventory
}

#[test]
fn replayed_chain_plan_reaches_the_target_and_the_final_counts() {
    let recipes = chain_recipes();
    let start = ItemSet::from_item_counts(vec![(0, 4)]);
    let target = ItemSet::from_item_counts(vec![(2, 1)]);
    let (solution, plan) = find_executable_solution_via_cycle_elimination(recipes, start.clone(), target.clone()).unwrap();
    let end = replay_plan(&start, &plan);
    for &item in &solution.relevant_item_ids {
        assert_eq!(end.count(item), solution.final_inventory_count(item));
        assert!(end.count(item) >= target.count(item));
    }
}

#[test]
fn replayed_demo_plan_reaches_the_target() {
    let (recipes, start, target) = build_demo_scenario();
    let (solution, plan) = find_executable_solution_via_cycle_elimination(recipes, start.clone(), target.clone()).unwrap();
    let end = replay_plan(&start, &plan);
    assert!(end.count(3) >= 11);
    for &item in &solution.relevant_item_ids {
        assert_eq!(end.count(item), solution.final_inventory_count(item));
    }
}

#[test]
fn adding_the_required_items_makes_the_target_craftable() {
    let recipes = chain_recipes();
    let start = ItemSet::from_item_counts(vec![(0, 1)]);
    let target = ItemSet::from_item_counts(vec![(2, 1)]);
    assert!(find_executable_solution_via_cycle_elimination(recipes.clone(), start.clone(), target.clone()).is_err());
    let required = compute_required_base_items(recipes.clone(), start.clone(), target.clone()).unwrap();
    assert_eq!(required.items, vec![(0, 1)]);
    let mut topped_up = start.clone();
    for &(item, count) in &required.items {
        topped_up.add_count(item, count);
    }
    let (_, plan) = find_executable_solution_via_cycle_elimination(recipes, topped_up.clone(), target).unwrap();
    assert!(replay_plan(&topped_up, &plan).count(2) >= 1);
}

#[test]
fn subtracting_what_was_added_restores_the_counts() {
    let initial = ItemSet::from_item_counts(vec![(1, 2), (4, 0)]);
    for item in [1, 4, 9] {
        let mut set = initial.clone();
        set.add_count(item, 6);
        set.subtract_count(item, 6);
        for probe in [1, 4, 9] {
            assert_eq!(set.count(probe), initial.count(probe));
        }
    }
}

#[test]
fn item_set_indexing_defaults_to_zero() {
    let set = ItemSet::from_item_counts(vec![(2, 5), (3, 0)]);
    assert_eq!(set[2], 5);
    assert_eq!(set[3], 0);
    assert_eq!(set[7], 0);
}

#[test]
fn craftable_amount_follows_a_checked_usage() {
    let recipes = vec![Recipe::from_single_transform(0, 1, 1, 1, 0)];
    let id = recipes[0].unique_id;
    let start = ItemSet::from_item_counts(vec![(0, 5)]);
    let target = ItemSet::from_item_counts(vec![(1, 1)]);
    let relevant = vec![1, 0];
    assert_eq!(craftable_amount_from_usage(&recipes, &vec![(id, 3)], &start, &target, &relevant), 3);
    assert_eq!(craftable_amount_from_usage(&recipes, &vec![(id, 0)], &start, &target, &relevant), 0);
    assert_eq!(craftable_amount_from_usage(&recipes, &vec![(id, -1)], &start, &target, &relevant), 0);
    assert_eq!(craftable_amount_from_usage(&recipes, &vec![(id, 6)], &start, &target, &relevant), 0);
}

#[test]
fn solution_from_usage_lists_final_counts() {
    let recipes = vec![Recipe::from_single_transform(0, 1, 1, 1, 0)];
    let id = recipes[0].unique_id;
    let start = ItemSet::from_item_counts(vec![(0, 5)]);
    let target = ItemSet::from_item_counts(vec![(1, 1)]);
    let relevant = vec![1, 0];
    let solution = solution_from_usage(&recipes, vec![(id, 3)], &start, &target, &relevant, &vec![]).unwrap();
    assert_eq!(solution.recipe_values, vec![(id, 3)]);
    assert_eq!(solution.final_inventory_values.items, vec![(1, 3), (0, 2)]);
    assert_eq!(solution.relevant_item_ids, vec![0, 1]);
    assert!(solution_from_usage(&recipes, vec![(id, 3)], &start, &target, &relevant, &vec![id]).is_none());
    assert!(solution_from_usage(&recipes, vec![(id, 0)], &start, &target, &relevant, &vec![]).is_none());
}

#[test]
fn deficits_report_what_unproducible_items_lack() {
    let recipes = vec![Recipe::from_single_transform(0, 1, 1, 1, 0)];
    let id = recipes[0].unique_id;
    let start = ItemSet::from_item_counts(vec![(0, 1)]);
    let target = ItemSet::from_item_counts(vec![(1, 3)]);
    let relevant = vec![1, 0];
    let required = collect_deficits(&recipes, &vec![(id, 3)], &start, &target, &relevant, &vec![0]).unwrap();
    assert_eq!(required.items, vec![(0, 2)]);
    assert!(collect_deficits(&recipes, &vec![(id, 2)], &start, &target, &relevant, &vec![0]).is_none());
    assert!(collect_deficits(&recipes, &vec![(id, -3)], &start, &target, &relevant, &vec![0]).is_none());
}

#[test]
fn loop_breaking_picks_the_most_used_recipe_of_each_loop() {
    let there = Recipe::from_single_transform(0, 1, 1, 1, 0);
    let back = Recipe::from_single_transform(1, 1, 0, 1, 0);
    let onward = Recipe::from_single_transform(1, 1, 2, 1, 0);
    let recipes = vec![there.clone(), back.clone(), onward.clone()];
    let solution = CraftingSolution {
        recipe_values: vec![(there.unique_id, 2), (back.unique_id, 5), (onward.unique_id, 1)],
        final_inventory_values: ItemSet::from_item_counts(vec![]),
        relevant_item_ids: vec![],
    };
    assert_eq!(loop_breaking_choices(&recipes, &solution), vec![back.unique_id]);
    let idle = CraftingSolution {
        recipe_values: vec![(there.unique_id, 2), (back.unique_id, 0), (onward.unique_id, 1)],
        final_inventory_values: ItemSet::from_item_counts(vec![]),
        relevant_item_ids: vec![],
    };
    assert!(loop_breaking_choices(&recipes, &idle).is_empty());
}

#[test]
fn plan_search_backtracks_to_single_applications() {
    // Running the loop recipe twice at once is impossible, one at a time it works.
    let grow = Recipe::from_transform(vec![(0, 1)], vec![(0, 2)], 0);
    let recipes = vec![grow.clone()];
    let start = ItemSet::from_item_counts(vec![(0, 1)]);
    let plan = build_executable_plan_from_recipe_usage(&recipes, &vec![(grow.unique_id, 3)], &start).unwrap();
    let end = replay_plan(&start, &plan);
    assert_eq!(end.count(0), 4);
    let total: usize = plan.iter().map(|(_, n)| *n).sum();
    assert_eq!(total, 3);
}

#[test]
fn required_items_without_a_producer_are_the_target_shortfall() {
    let recipes = vec![Recipe::from_single_transform(0, 1, 1, 1, 0)];
    let start = ItemSet::from_item_counts(vec![(5, 1), (6, 9)]);
    let target = ItemSet::from_item_counts(vec![(5, 3), (6, 2)]);
    let required = compute_required_base_items(recipes, start, target).unwrap();
    assert_eq!(required.items, vec![(5, 2)]);
}

#[test]
fn craft_report_gives_a_plan_when_craftable() {
    let start = ItemSet::from_item_counts(vec![(0, 4)]);
    let target = ItemSet::from_item_counts(vec![(2, 1)]);
    let (max, report) = craft_or_report(chain_recipes(), start.clone(), target);
    assert_eq!(max, 2);
    match report {
        Some(CraftReport::Executable { plan, .. }) => assert!(replay_plan(&start, &plan).count(2) >= 1),
        _ => panic!("expected an executable plan"),
    }
}

#[test]
fn craft_report_lists_missing_items_when_not_craftable() {
    let start = ItemSet::from_item_counts(vec![(0, 1)]);
    let target = ItemSet::from_item_counts(vec![(2, 1)]);
    let (max, report) = craft_or_report(chain_recipes(), start, target);
    assert_eq!(max, 0);
    match report {
        Some(CraftReport::NotCraftable { required }) => assert_eq!(required.items, vec![(0, 1)]),
        _ => panic!("expected the missing items"),
    }
}

#[test]
fn recipe_identity_ignores_entry_order() {
    let a = Recipe::from_transform(vec![(0, 2), (3, 1)], vec![(2, 1), (4, 5)], 7);
    let b = Recipe::from_transform(vec![(3, 1), (0, 2)], vec![(4, 5), (2, 1)], 7);
    assert_eq!(a.unique_id, b.unique_id);
    let c = Recipe::from_transform(vec![(3, 1), (0, 2)], vec![(4, 5), (2, 1)], 8);
    assert_ne!(a.unique_id, c.unique_id);
}

#[test]
fn heartbeat_is_due_exactly_once_the_interval_is_reached() {
    let mut logger = PeriodicLogger::new(1_000_000_000);
    assert!(!logger.heartbeat_after(999_999_999));
    assert!(logger.heartbeat_after(1_000_000_000));
    assert!(logger.heartbeat_after(5_000_000_000));
}

#[test]
fn counts_of_several_digits_are_described_in_full() {
    let recipe = Recipe::from_single_transform(0, 1204, 3, 10, 0);
    assert_eq!(recipe.describe(), "Cobblestone x1204 -> Glass x10");
}

#[test]
fn selection_keeps_the_earlier_of_two_equal_priority_producers() {
    let first = Recipe::from_single_transform(0, 1, 1, 1, 0);
    let second = Recipe::from_single_transform(2, 1, 1, 1, 0);
    let selected = select_top_priority_recipes_per_output_item(&vec![first.clone(), second.clone()]);
    assert_eq!(selected.len(), 1);
    assert_eq!(selected[0].unique_id, first.unique_id);
    let swapped = select_top_priority_recipes_per_output_item(&vec![second.clone(), first.clone()]);
    assert_eq!(swapped.len(), 1);
    assert_eq!(swapped[0].unique_id, second.unique_id);
}

#[test]
fn direct_target_producer_ranks_by_its_own_priority() {
    let via_input = Recipe::from_transform(vec![(0, 1)], vec![(2, 1)], 5);
    let direct = Recipe::from_transform(vec![], vec![(2, 1)], 3);
    let back = Recipe::from_transform(vec![(2, 1)], vec![(0, 1)], -10);
    let target = ItemSet::from_item_counts(vec![(2, 1)]);
    let (ranked, _) = prioritize_and_prune_relevant_recipes_and_items(
        &vec![via_input.clone(), direct.clone(), back.clone()],
        &target,
    );
    assert_eq!(ranked.len(), 3);
    assert_eq!(ranked[0].unique_id, direct.unique_id);
    assert_eq!(ranked[1].unique_id, via_input.unique_id);
    assert_eq!(ranked[2].unique_id, back.unique_id);
}

#[test]
fn search_without_any_solution_disables_nothing() {
    let recipes = vec![Recipe::from_single_transform(0, 1, 1, 1, 0)];
    let start = ItemSet::from_item_counts(vec![]);
    let target = ItemSet::from_item_counts(vec![(1, 1)]);
    match find_executable_solution_via_cycle_elimination(recipes, start, target) {
        Err(disabled) => assert!(disabled.is_empty()),
        Ok(_) => panic!("no starting items, so no solution"),
    }
}

#[test]
fn recipe_keys_extend_the_best_key_of_the_item_they_make() {
    // Item 1 is reached directly from the target (key [5]) and through item 0
    // (key [5, -10]); its producer extends the better item key, [5], to [5, 3].
    let to_target = Recipe::from_transform(vec![(0, 1), (1, 1)], vec![(2, 1)], 5);
    let to_zero = Recipe::from_transform(vec![(1, 1), (3, 1)], vec![(0, 1)], -10);
    let make_one = Recipe::from_transform(vec![], vec![(1, 1)], 3);
    let make_three = Recipe::from_transform(vec![], vec![(3, 1)], 4);
    let target = ItemSet::from_item_counts(vec![(2, 1)]);
    let (ranked, _) = prioritize_and_prune_relevant_recipes_and_items(
        &vec![make_one.clone(), make_three.clone(), to_zero.clone(), to_target.clone()],
        &target,
    );
    let ids: Vec<usize> = ranked.iter().map(|r| r.unique_id).collect();
    assert_eq!(ids, vec![to_target.unique_id, to_zero.unique_id, make_three.unique_id, make_one.unique_id]);
}

#[test]
fn a_recipe_key_keeps_the_route_it_was_first_improved_by() {
    // Target 3 is expanded first: item 1 is reached through item 0 with key
    // [5, -10], so its producer gets [5, -10, 3]; target 2 later lowers item
    // 1's key to [5], but [5, 3] does not improve on [5, -10, 3].
    let to_three = Recipe::from_transform(vec![(0, 1)], vec![(3, 1)], 5);
    let to_two = Recipe::from_transform(vec![(1, 1)], vec![(2, 1)], 5);
    let to_zero = Recipe::from_transform(vec![(1, 1), (4, 1)], vec![(0, 1)], -10);
    let make_one = Recipe::from_transform(vec![], vec![(1, 1)], 3);
    let make_four = Recipe::from_transform(vec![], vec![(4, 1)], 4);
    let target = ItemSet::from_item_counts(vec![(2, 1), (3, 1)]);
    let (ranked, _) = prioritize_and_prune_relevant_recipes_and_items(
        &vec![to_three.clone(), to_two.clone(), to_zero.clone(), make_one.clone(), make_four.clone()],
        &target,
    );
    let ids: Vec<usize> = ranked.iter().map(|r| r.unique_id).collect();
    assert_eq!(
        ids,
        vec![to_three.unique_id, to_two.unique_id, to_zero.unique_id, make_one.unique_id, make_four.unique_id]
    );
}

#[test]
fn selecting_a_selection_again_keeps_it() {
    let recipes = vec![
        Recipe::from_single_transform(0, 1, 1, 1, 2),
        Recipe::from_single_transform(2, 1, 1, 1, 1),
        Recipe::from_transform(vec![(1, 2)], vec![(3, 1), (4, 1)], 0),
        Recipe::from_single_transform(1, 1, 3, 1, 5),
    ];
    let target = ItemSet::from_item_counts(vec![(3, 1), (4, 1)]);
    let (ranked, _) = prioritize_and_prune_relevant_recipes_and_items(&recipes, &target);
    let once = select_top_priority_recipes_per_output_item(&ranked);
    let twice = select_top_priority_recipes_per_output_item(&once);
    let once_ids: Vec<usize> = once.iter().map(|r| r.unique_id).collect();
    let twice_ids: Vec<usize> = twice.iter().map(|r| r.unique_id).collect();
    assert_eq!(once_ids, twice_ids);
    assert!(once.len() < ranked.len());
}

#[test]
fn a_cheaper_producer_lowers_the_key_of_its_input() {
    // Both recipes make the target from item 0; the second has the lower
    // priority, so item 0 takes its key [0] and the recipe making item 0 ranks
    // right after it, before the first.
    let first = Recipe::from_transform(vec![(0, 1)], vec![(2, 1)], 5);
    let second = Recipe::from_transform(vec![(0, 2)], vec![(2, 1)], 0);
    let feed = Recipe::from_transform(vec![(1, 1)], vec![(0, 1)], 0);
    let target = ItemSet::from_item_counts(vec![(2, 1)]);
    let (ranked, _) = prioritize_and_prune_relevant_recipes_and_items(
        &vec![first.clone(), second.clone(), feed.clone()],
        &target,
    );
    let ids: Vec<usize> = ranked.iter().map(|r| r.unique_id).collect();
    assert_eq!(ids, vec![second.unique_id, feed.unique_id, first.unique_id]);
}

#[test]
fn search_fails_when_a_target_item_nothing_makes_is_short() {
    let recipes = vec![Recipe::from_single_transform(0, 1, 1, 1, 0)];
    let start = ItemSet::from_item_counts(vec![(0, 5)]);
    let target = ItemSet::from_item_counts(vec![(1, 1), (9, 1)]);
    assert!(find_executable_solution_via_cycle_elimination(recipes.clone(), start, target.clone()).is_err());
    let enough = ItemSet::from_item_counts(vec![(0, 5), (9, 1)]);
    assert!(find_executable_solution_via_cycle_elimination(recipes, enough, target).is_ok());
}

#[test]
fn item_sets_compare_by_content() {
    let a = ItemSet::from_item_counts(vec![(0, 2), (3, 1)]);
    let b = ItemSet::from_item_counts(vec![(3, 1), (0, 1), (0, 1)]);
    let c = ItemSet::from_item_counts(vec![(3, 1), (0, 3)]);
    assert!(a == b);
    assert!(a != c);
    assert!(a != ItemSet::from_item_counts(vec![(0, 2)]));
}

#[test]
fn loop_table_ignores_recipe_order() {
    let a = Recipe::from_single_transform(0, 1, 1, 1, 0);
    let b = Recipe::from_single_transform(1, 1, 0, 2, 0);
    let c = Recipe::from_single_transform(1, 1, 2, 1, 0);
    let (table, loops) = detect_recipe_cycles(&vec![a.clone(), b.clone(), c.clone()]);
    let (table2, loops2) = detect_recipe_cycles(&vec![c.clone(), b.clone(), a.clone()]);
    let marked = |t: &Vec<(usize, bool)>, id: usize| t.iter().find(|e| e.0 == id).map(|e| e.1);
    for r in [&a, &b, &c] {
        assert_eq!(marked(&table, r.unique_id), marked(&table2, r.unique_id));
    }
    assert_eq!(marked(&table, a.unique_id), Some(true));
    assert_eq!(marked(&table, c.unique_id), Some(false));
    assert_eq!(loops.len(), loops2.len());
}
