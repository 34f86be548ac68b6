//! Ready-made crafting scenarios: recipes, starting inventory and target.
use vstd::prelude::*;
use crate::crafting_domain::{
    recipe_identity, ItemId, ItemSet, Recipe, COBBLESTONE_ID, DIAMOND_ID, GLASS_ID, GRAVEL_ID, SAND_ID,
    STRESS_ITEM_BASE_ID, STRESS_ITEM_COUNT,
};
use crate::keyed_entries::{add_entry, key_index, keys_distinct, lemma_key_index, merged, total_for, totals_fit};

verus! {

/// Recipes, starting inventory and target.
pub type ScenarioData = (Vec<Recipe>, ItemSet, ItemSet);

/// A recipe table row: inputs, outputs and base priority.
pub type RecipeRow = (Seq<(ItemId, usize)>, Seq<(ItemId, usize)>, isize);

/// `r` is the recipe described by `row`, with the identity its content gives
/// and no effective priority yet.
pub open spec fn built_from(r: Recipe, row: RecipeRow) -> bool {
    &&& r@.input =~= row.0
    &&& r@.output =~= row.1
    &&& r.base_priority == row.2
    &&& r.effective_priority is None
    &&& r.unique_id == recipe_identity(r@.input, r@.output, r.base_priority)
}

/// The recipes are those of the table, in order.
pub open spec fn recipes_follow(recipes: Seq<Recipe>, table: Seq<RecipeRow>) -> bool {
    &&& recipes.len() == table.len()
    &&& forall|k: int| 0 <= k < table.len() ==> built_from(#[trigger] recipes[k], table[k])
}

/// A short list of distinct items with moderate counts.
pub open spec fn small_list(v: Seq<(ItemId, usize)>) -> bool {
    &&& keys_distinct(v)
    &&& v.len() <= 8
    &&& forall|k: int| 0 <= k < v.len() ==> (#[trigger] v[k]).1 <= 0x100_0000
}

proof fn lemma_small_total(v: Seq<(ItemId, usize)>, k: ItemId)
    requires
        forall|i: int| 0 <= i < v.len() ==> (#[trigger] v[i]).1 <= 0x100_0000,
    ensures
        total_for(v, k) <= v.len() * 0x100_0000,
    decreases v.len(),
{
    if v.len() > 0 {
        lemma_small_total(v.drop_last(), k);
    }
}

/// A small list needs no merging and its totals fit.
proof fn lemma_small_list(v: Seq<(ItemId, usize)>)
    requires
        small_list(v),
    ensures
        totals_fit(v),
        merged(v) == v,
    decreases v.len(),
{
    assert forall|n: int, k: usize| 0 <= n <= v.len() implies #[trigger] total_for(v.take(n), k) <= usize::MAX by {
        lemma_small_total(v.take(n), k);
    }
    if v.len() > 0 {
        let rest = v.drop_last();
        assert(small_list(rest));
        lemma_small_list(rest);
        lemma_key_index(rest, v.last().0);
        assert(key_index(rest, v.last().0) < 0) by {
            if key_index(rest, v.last().0) >= 0 {
                let i = key_index(rest, v.last().0);
                assert(v[i].0 != v[v.len() - 1].0);
            }
        }
        assert(add_entry(rest, v.last().0, v.last().1) =~= v);
    }
}

/// A recipe from short lists of distinct items.
fn transform(input: Vec<(ItemId, usize)>, output: Vec<(ItemId, usize)>, priority: isize) -> (r: Recipe)
    requires
        small_list(input@),
        small_list(output@),
    ensures
        built_from(r, (input@, output@, priority)),
{
    proof {
        lemma_small_list(input@);
        lemma_small_list(output@);
    }
    Recipe::from_transform(input, output, priority)
}

/// An item set from a short list of distinct items.
fn item_set(items: Vec<(ItemId, usize)>) -> (set: ItemSet)
    requires
        small_list(items@),
    ensures
        set@ == items@,
{
    proof {
        lemma_small_list(items@);
    }
    ItemSet::from_item_counts(items)
}

/// The single-input, single-output recipe `count_in` of `a` to `count_out` of `b`.
pub open spec fn single_row(a: ItemId, count_in: usize, b: ItemId, count_out: usize, priority: isize) -> RecipeRow {
    (seq![(a, count_in)], seq![(b, count_out)], priority)
}

/// The recipes of the demo scenario.
pub open spec fn demo_recipes() -> Seq<RecipeRow> {
    seq![
        single_row(0, 1, 1, 1, 0),
        single_row(1, 2, 2, 1, 10),
        (seq![(2usize, 1usize), (0usize, 1usize)], seq![(3usize, 2usize)], 10isize),
        single_row(0, 10, 3, 9, 5),
        (seq![(0usize, 1usize)], seq![(0usize, 2usize), (4usize, 1usize)], -100000isize),
    ]
}

/// The demo scenario: glass from cobblestone through gravel and sand, a
/// direct but lossy route, and a cobblestone-doubling loop that also yields
/// diamonds. Five cobblestone to start; eleven glass wanted.
pub fn build_demo_scenario() -> (scenario: ScenarioData)
    ensures
        recipes_follow(scenario.0@, demo_recipes()),
        scenario.1@ == seq![(COBBLESTONE_ID, 5usize)],
        scenario.2@ == seq![(GLASS_ID, 11usize)],
{
    let recipes = vec![
        Recipe::from_single_transform(COBBLESTONE_ID, 1, GRAVEL_ID, 1, 0),
        Recipe::from_single_transform(GRAVEL_ID, 2, SAND_ID, 1, 10),
        transform(vec![(SAND_ID, 1), (COBBLESTONE_ID, 1)], vec![(GLASS_ID, 2)], 10),
        Recipe::from_single_transform(COBBLESTONE_ID, 10, GLASS_ID, 9, 5),
        transform(vec![(COBBLESTONE_ID, 1)], vec![(COBBLESTONE_ID, 2), (DIAMOND_ID, 1)], -100000),
    ];
    let starting_items = item_set(vec![(COBBLESTONE_ID, 5)]);
    let target = item_set(vec![(GLASS_ID, 11)]);
    proof {
        assert forall|k: int| 0 <= k < demo_recipes().len() implies built_from(#[trigger] recipes@[k], demo_recipes()[k]) by {
            if k == 0 {
                assert(built_from(recipes@[0], demo_recipes()[0]));
            } else if k == 1 {
                assert(built_from(recipes@[1], demo_recipes()[1]));
            } else if k == 2 {
                assert(built_from(recipes@[2], demo_recipes()[2]));
            } else if k == 3 {
                assert(built_from(recipes@[3], demo_recipes()[3]));
            } else if k == 4 {
                assert(built_from(recipes@[4], demo_recipes()[4]));
            }
        }
    }
    (recipes, starting_items, target)
}

/// The stress item at `index`, wrapping around the named ones.
pub open spec fn stress_item(index: nat) -> ItemId {
    (STRESS_ITEM_BASE_ID + index % (STRESS_ITEM_COUNT as nat)) as ItemId
}

fn stress_item_id(index: usize) -> (id: ItemId)
    ensures
        id == stress_item(index as nat),
{
    STRESS_ITEM_BASE_ID + (index % STRESS_ITEM_COUNT)
}

/// The length of the loop in the stress scenario.
pub const STRESS_LOOP_ITEM_COUNT: usize = 20;

/// Recipe `k` of the stress scenario: two of one item make one of the next,
/// and the last turns two into `2^20 + 1` of the first.
pub open spec fn stress_row(k: nat) -> RecipeRow {
    if k + 1 < STRESS_LOOP_ITEM_COUNT {
        single_row(stress_item(k), 2, stress_item(k + 1), 1, 0)
    } else {
        single_row(stress_item((STRESS_LOOP_ITEM_COUNT - 1) as nat), 2, stress_item(0), 0x10_0001, 0)
    }
}

/// A small stress test of exponentials and cycles: a loop of twenty items in
/// which one full turn consumes `2^20` of the first item and returns
/// `2^20 + 1` of it.
pub fn build_stress_scenario() -> (scenario: ScenarioData)
    ensures
        scenario.0@.len() == STRESS_LOOP_ITEM_COUNT,
        forall|k: int| 0 <= k < STRESS_LOOP_ITEM_COUNT ==> built_from(#[trigger] scenario.0@[k], stress_row(k as nat)),
        scenario.1@ == seq![(stress_item(0), 0x10_0000usize)],
        scenario.2@ == seq![(stress_item(0), 0x10_0020usize)],
{
    let mut recipes: Vec<Recipe> = Vec::new();
    let mut index: usize = 0;
    while index < STRESS_LOOP_ITEM_COUNT - 1
        invariant
            index <= STRESS_LOOP_ITEM_COUNT - 1,
            recipes@.len() == index,
            forall|k: int| 0 <= k < index ==> built_from(#[trigger] recipes@[k], stress_row(k as nat)),
        decreases STRESS_LOOP_ITEM_COUNT - 1 - index,
    {
        let r = Recipe::from_single_transform(stress_item_id(index), 2, stress_item_id(index + 1), 1, 0);
        recipes.push(r);
        index = index + 1;
    }
    let turn_input: usize = 1 << STRESS_LOOP_ITEM_COUNT;
    let turn_output: i32 = 1 << STRESS_LOOP_ITEM_COUNT;
    proof {
        assert(turn_input == 0x10_0000) by (bit_vector)
            requires
                turn_input == 1usize << 20usize,
        ;
        assert(turn_output == 0x10_0000) by (bit_vector)
            requires
                turn_output == 1i32 << 20usize,
        ;
    }
    let last = Recipe::from_single_transform(stress_item_id(STRESS_LOOP_ITEM_COUNT - 1), 2, stress_item_id(0), turn_output + 1, 0);
    let ghost before = recipes@;
    recipes.push(last);
    let starting_items = item_set(vec![(stress_item_id(0), turn_input)]);
    let target = item_set(vec![(stress_item_id(0), turn_input + 32)]);
    proof {
        assert forall|k: int| 0 <= k < STRESS_LOOP_ITEM_COUNT implies built_from(#[trigger] recipes@[k], stress_row(k as nat)) by {
            if k < STRESS_LOOP_ITEM_COUNT - 1 {
                assert(recipes@[k] == before[k]);
            }
        }
    }
    (recipes, starting_items, target)
}

/// The recipes of the satisfiability scenario.
pub open spec fn sat_recipes() -> Seq<RecipeRow> {
    let b = STRESS_ITEM_BASE_ID;
    seq![
        single_row(b, 1, (b + 4) as ItemId, 100, 0),
        single_row(b, 1, (b + 8) as ItemId, 100, 0),
        single_row((b + 1) as ItemId, 1, (b + 5) as ItemId, 100, 0),
        single_row((b + 1) as ItemId, 1, (b + 9) as ItemId, 100, 0),
        single_row((b + 2) as ItemId, 1, (b + 6) as ItemId, 100, 0),
        single_row((b + 2) as ItemId, 1, (b + 10) as ItemId, 100, 0),
        single_row((b + 3) as ItemId, 1, (b + 7) as ItemId, 100, 0),
        single_row((b + 3) as ItemId, 1, (b + 11) as ItemId, 100, 0),
        single_row((b + 4) as ItemId, 1, (b + 12) as ItemId, 1, -100000isize),
        single_row((b + 9) as ItemId, 1, (b + 12) as ItemId, 1, -100000isize),
        single_row((b + 11) as ItemId, 1, (b + 12) as ItemId, 1, -100000isize),
        single_row((b + 8) as ItemId, 1, (b + 13) as ItemId, 1, -100000isize),
        single_row((b + 5) as ItemId, 1, (b + 13) as ItemId, 1, -100000isize),
        single_row((b + 10) as ItemId, 1, (b + 13) as ItemId, 1, -100000isize),
        single_row((b + 5) as ItemId, 1, (b + 14) as ItemId, 1, -100000isize),
        single_row((b + 10) as ItemId, 1, (b + 14) as ItemId, 1, -100000isize),
        single_row((b + 7) as ItemId, 1, (b + 14) as ItemId, 1, -100000isize),
        (seq![((b + 12) as ItemId, 1usize), ((b + 13) as ItemId, 1usize), ((b + 14) as ItemId, 1usize)], seq![((b + 23) as ItemId, 1usize)], 100000isize),
    ]
}

/// A small scenario encoding the satisfiability of
/// (a or not b or not d) and (not a or b or not c) and (b or not c or d):
/// one unit of each variable becomes its true or its false copy, each clause
/// is made from a matching literal, and the target needs all three clauses.
pub fn build_sat_scenario() -> (scenario: ScenarioData)
    ensures
        recipes_follow(scenario.0@, sat_recipes()),
        scenario.1@ == seq![
            (STRESS_ITEM_BASE_ID, 1usize),
            ((STRESS_ITEM_BASE_ID + 1) as ItemId, 1usize),
            ((STRESS_ITEM_BASE_ID + 2) as ItemId, 1usize),
            ((STRESS_ITEM_BASE_ID + 3) as ItemId, 1usize),
        ],
        scenario.2@ == seq![((STRESS_ITEM_BASE_ID + 23) as ItemId, 1usize)],
{
    let a = STRESS_ITEM_BASE_ID;
    let b = STRESS_ITEM_BASE_ID + 1;
    let c = STRESS_ITEM_BASE_ID + 2;
    let d = STRESS_ITEM_BASE_ID + 3;
    let a_true = a + 4;
    let b_true = b + 4;
    let c_true = c + 4;
    let d_true = d + 4;
    let a_false = a + 8;
    let b_false = b + 8;
    let c_false = c + 8;
    let d_false = d + 8;
    let term_1 = STRESS_ITEM_BASE_ID + 12;
    let term_2 = STRESS_ITEM_BASE_ID + 13;
    let term_3 = STRESS_ITEM_BASE_ID + 14;
    let starting_items = item_set(vec![(a, 1), (b, 1), (c, 1), (d, 1)]);
    let recipes = vec![
        Recipe::from_single_transform(a, 1, a_true, 100, 0),
        Recipe::from_single_transform(a, 1, a_false, 100, 0),
        Recipe::from_single_transform(b, 1, b_true, 100, 0),
        Recipe::from_single_transform(b, 1, b_false, 100, 0),
        Recipe::from_single_transform(c, 1, c_true, 100, 0),
        Recipe::from_single_transform(c, 1, c_false, 100, 0),
        Recipe::from_single_transform(d, 1, d_true, 100, 0),
        Recipe::from_single_transform(d, 1, d_false, 100, 0),
        Recipe::from_single_transform(a_true, 1, term_1, 1, -100000isize),
        Recipe::from_single_transform(b_false, 1, term_1, 1, -100000isize),
        Recipe::from_single_transform(d_false, 1, term_1, 1, -100000isize),
        Recipe::from_single_transform(a_false, 1, term_2, 1, -100000isize),
        Recipe::from_single_transform(b_true, 1, term_2, 1, -100000isize),
        Recipe::from_single_transform(c_false, 1, term_2, 1, -100000isize),
        Recipe::from_single_transform(b_true, 1, term_3, 1, -100000isize),
        Recipe::from_single_transform(c_false, 1, term_3, 1, -100000isize),
        Recipe::from_single_transform(d_true, 1, term_3, 1, -100000isize),
        transform(vec![(term_1, 1), (term_2, 1), (term_3, 1)], vec![(STRESS_ITEM_BASE_ID + 23, 1)], 100000),
    ];
    let target = item_set(vec![(STRESS_ITEM_BASE_ID + 23, 1)]);
    proof {
        assert forall|k: int| 0 <= k < sat_recipes().len() implies built_from(#[trigger] recipes@[k], sat_recipes()[k]) by {
            if k == 0 {
                assert(built_from(recipes@[0], sat_recipes()[0]));
            } else if k == 1 {
                assert(built_from(recipes@[1], sat_recipes()[1]));
            } else if k == 2 {
                assert(built_from(recipes@[2], sat_recipes()[2]));
            } else if k == 3 {
                assert(built_from(recipes@[3], sat_recipes()[3]));
            } else if k == 4 {
                assert(built_from(recipes@[4], sat_recipes()[4]));
            } else if k == 5 {
                assert(built_from(recipes@[5], sat_recipes()[5]));
            } else if k == 6 {
                assert(built_from(recipes@[6], sat_recipes()[6]));
            } else if k == 7 {
                assert(built_from(recipes@[7], sat_recipes()[7]));
            } else if k == 8 {
                assert(built_from(recipes@[8], sat_recipes()[8]));
            } else if k == 9 {
                assert(built_from(recipes@[9], sat_recipes()[9]));
            } else if k == 10 {
                assert(built_from(recipes@[10], sat_recipes()[10]));
            } else if k == 11 {
                assert(built_from(recipes@[11], sat_recipes()[11]));
            } else if k == 12 {
                assert(built_from(recipes@[12], sat_recipes()[12]));
            } else if k == 13 {
                assert(built_from(recipes@[13], sat_recipes()[13]));
            } else if k == 14 {
                assert(built_from(recipes@[14], sat_recipes()[14]));
            } else if k == 15 {
                assert(built_from(recipes@[15], sat_recipes()[15]));
            } else if k == 16 {
                assert(built_from(recipes@[16], sat_recipes()[16]));
            } else if k == 17 {
                assert(built_from(recipes@[17], sat_recipes()[17]));
            }
        }
    }
    (recipes, starting_items, target)
}

/// The recipes of the loop stress scenario.
pub open spec fn loop_stress_recipes() -> Seq<RecipeRow> {
    seq![
        (seq![(100usize, 3usize), (104usize, 1usize)], seq![(101usize, 5usize), (107usize, 1usize)], 2isize),
        (seq![(101usize, 2usize), (108usize, 1usize)], seq![(102usize, 3usize), (111usize, 2usize)], -1isize),
        (seq![(102usize, 5usize)], seq![(103usize, 2usize), (109usize, 1usize)], 4isize),
        (seq![(103usize, 3usize), (106usize, 2usize)], seq![(104usize, 4usize), (112usize, 1usize)], 0isize),
        (seq![(104usize, 6usize)], seq![(105usize, 3usize), (100usize, 1usize)], -3isize),
        (seq![(105usize, 4usize), (110usize, 1usize)], seq![(106usize, 2usize), (113usize, 2usize)], 6isize),
        (seq![(106usize, 5usize), (102usize, 1usize)], seq![(107usize, 4usize)], -2isize),
        (seq![(107usize, 3usize), (114usize, 1usize)], seq![(108usize, 6usize), (115usize, 1usize)], 3isize),
        (seq![(108usize, 4usize), (101usize, 2usize)], seq![(109usize, 5usize), (116usize, 1usize)], 7isize),
        (seq![(109usize, 7usize)], seq![(110usize, 2usize), (105usize, 3usize)], -5isize),
        (seq![(110usize, 3usize), (112usize, 1usize)], seq![(111usize, 4usize), (117usize, 2usize)], 1isize),
        (seq![(111usize, 6usize), (103usize, 1usize)], seq![(112usize, 5usize)], 5isize),
        (seq![(112usize, 2usize), (118usize, 2usize)], seq![(113usize, 7usize), (104usize, 1usize)], -4isize),
        (seq![(113usize, 8usize)], seq![(114usize, 3usize), (119usize, 2usize)], 8isize),
        (seq![(114usize, 2usize), (106usize, 3usize)], seq![(115usize, 5usize), (120usize, 1usize)], -6isize),
        (seq![(115usize, 5usize), (109usize, 1usize)], seq![(116usize, 4usize), (102usize, 2usize)], 2isize),
        (seq![(116usize, 3usize), (121usize, 1usize)], seq![(117usize, 6usize)], 0isize),
        (seq![(117usize, 7usize)], seq![(118usize, 2usize), (110usize, 3usize)], 9isize),
        (seq![(118usize, 4usize), (105usize, 2usize)], seq![(119usize, 5usize), (122usize, 1usize)], -7isize),
        (seq![(119usize, 6usize), (111usize, 1usize)], seq![(120usize, 4usize), (108usize, 2usize)], 4isize),
        (seq![(120usize, 3usize), (123usize, 1usize)], seq![(121usize, 7usize), (112usize, 1usize)], -2isize),
        (seq![(121usize, 5usize), (100usize, 2usize)], seq![(122usize, 6usize), (114usize, 1usize)], 6isize),
        (seq![(122usize, 4usize), (113usize, 1usize)], seq![(123usize, 3usize), (116usize, 2usize)], -1isize),
        (seq![(123usize, 2usize), (124usize, 2usize)], seq![(124usize, 5usize), (101usize, 1usize)], 5isize),
        (seq![(124usize, 9usize)], seq![(100usize, 4usize), (118usize, 3usize)], -8isize),
        (seq![(102usize, 3usize), (115usize, 2usize)], seq![(106usize, 6usize), (122usize, 1usize)], 3isize),
        (seq![(107usize, 1usize), (119usize, 3usize)], seq![(103usize, 5usize), (110usize, 1usize)], -3isize),
        (seq![(104usize, 2usize), (117usize, 2usize)], seq![(109usize, 4usize), (124usize, 1usize)], 1isize),
        (seq![(111usize, 3usize), (120usize, 2usize)], seq![(105usize, 6usize), (123usize, 1usize)], -4isize),
        (seq![(116usize, 2usize), (108usize, 3usize)], seq![(112usize, 7usize), (121usize, 1usize)], 2isize),
        (seq![(118usize, 1usize), (114usize, 4usize)], seq![(102usize, 5usize), (107usize, 2usize)], -2isize),
        (seq![(101usize, 5usize), (122usize, 1usize)], seq![(113usize, 4usize), (119usize, 2usize)], 4isize),
        (seq![(106usize, 2usize), (124usize, 3usize)], seq![(117usize, 5usize), (100usize, 1usize)], -5isize),
        (seq![(109usize, 2usize), (103usize, 2usize), (121usize, 1usize)], seq![(115usize, 6usize)], 7isize),
        (seq![(110usize, 4usize), (112usize, 2usize)], seq![(118usize, 5usize), (104usize, 2usize)], -6isize),
        (seq![(123usize, 3usize), (105usize, 1usize)], seq![(111usize, 6usize), (116usize, 1usize)], 0isize),
        (seq![(120usize, 2usize), (102usize, 2usize), (107usize, 1usize)], seq![(124usize, 4usize), (114usize, 2usize)], 5isize),
        (seq![(113usize, 4usize), (100usize, 1usize)], seq![(108usize, 5usize), (122usize, 2usize)], -1isize),
        (seq![(115usize, 3usize), (106usize, 1usize), (119usize, 1usize)], seq![(101usize, 7usize), (120usize, 1usize)], 3isize),
        (seq![(117usize, 2usize), (110usize, 1usize), (104usize, 1usize)], seq![(123usize, 5usize), (109usize, 1usize)], -4isize),
        (seq![(124usize, 2usize), (114usize, 1usize), (111usize, 2usize)], seq![(103usize, 6usize), (118usize, 1usize)], 6isize),
        (seq![(122usize, 3usize), (116usize, 1usize), (105usize, 2usize)], seq![(112usize, 8usize)], -7isize),
    ]
}

/// A large stress scenario with many overlapping loops, asymmetric
/// conversions and mixed multi-input and multi-output recipes.
pub fn build_loop_stress_scenario() -> (scenario: ScenarioData)
    ensures
        recipes_follow(scenario.0@, loop_stress_recipes()),
        scenario.1@ == seq![
            (100usize, 850usize),
            (103usize, 420usize),
            (107usize, 310usize),
            (112usize, 215usize),
            (119usize, 160usize),
            (124usize, 95usize),
        ],
        scenario.2@ == seq![(100usize, 1300usize), (118usize, 420usize), (123usize, 260usize)],
{
    let recipes = vec![
        transform(vec![(s(0), 3), (s(4), 1)], vec![(s(1), 5), (s(7), 1)], 2),
        transform(vec![(s(1), 2), (s(8), 1)], vec![(s(2), 3), (s(11), 2)], -1),
        transform(vec![(s(2), 5)], vec![(s(3), 2), (s(9), 1)], 4),
        transform(vec![(s(3), 3), (s(6), 2)], vec![(s(4), 4), (s(12), 1)], 0),
        transform(vec![(s(4), 6)], vec![(s(5), 3), (s(0), 1)], -3),
        transform(vec![(s(5), 4), (s(10), 1)], vec![(s(6), 2), (s(13), 2)], 6),
        transform(vec![(s(6), 5), (s(2), 1)], vec![(s(7), 4)], -2),
        transform(vec![(s(7), 3), (s(14), 1)], vec![(s(8), 6), (s(15), 1)], 3),
        transform(vec![(s(8), 4), (s(1), 2)], vec![(s(9), 5), (s(16), 1)], 7),
        transform(vec![(s(9), 7)], vec![(s(10), 2), (s(5), 3)], -5),
        transform(vec![(s(10), 3), (s(12), 1)], vec![(s(11), 4), (s(17), 2)], 1),
        transform(vec![(s(11), 6), (s(3), 1)], vec![(s(12), 5)], 5),
        transform(vec![(s(12), 2), (s(18), 2)], vec![(s(13), 7), (s(4), 1)], -4),
        transform(vec![(s(13), 8)], vec![(s(14), 3), (s(19), 2)], 8),
        transform(vec![(s(14), 2), (s(6), 3)], vec![(s(15), 5), (s(20), 1)], -6),
        transform(vec![(s(15), 5), (s(9), 1)], vec![(s(16), 4), (s(2), 2)], 2),
        transform(vec![(s(16), 3), (s(21), 1)], vec![(s(17), 6)], 0),
        transform(vec![(s(17), 7)], vec![(s(18), 2), (s(10), 3)], 9),
        transform(vec![(s(18), 4), (s(5), 2)], vec![(s(19), 5), (s(22), 1)], -7),
        transform(vec![(s(19), 6), (s(11), 1)], vec![(s(20), 4), (s(8), 2)], 4),
        transform(vec![(s(20), 3), (s(23), 1)], vec![(s(21), 7), (s(12), 1)], -2),
        transform(vec![(s(21), 5), (s(0), 2)], vec![(s(22), 6), (s(14), 1)], 6),
        transform(vec![(s(22), 4), (s(13), 1)], vec![(s(23), 3), (s(16), 2)], -1),
        transform(vec![(s(23), 2), (s(24), 2)], vec![(s(24), 5), (s(1), 1)], 5),
        transform(vec![(s(24), 9)], vec![(s(0), 4), (s(18), 3)], -8),
        transform(vec![(s(2), 3), (s(15), 2)], vec![(s(6), 6), (s(22), 1)], 3),
        transform(vec![(s(7), 1), (s(19), 3)], vec![(s(3), 5), (s(10), 1)], -3),
        transform(vec![(s(4), 2), (s(17), 2)], vec![(s(9), 4), (s(24), 1)], 1),
        transform(vec![(s(11), 3), (s(20), 2)], vec![(s(5), 6), (s(23), 1)], -4),
        transform(vec![(s(16), 2), (s(8), 3)], vec![(s(12), 7), (s(21), 1)], 2),
        transform(vec![(s(18), 1), (s(14), 4)], vec![(s(2), 5), (s(7), 2)], -2),
        transform(vec![(s(1), 5), (s(22), 1)], vec![(s(13), 4), (s(19), 2)], 4),
        transform(vec![(s(6), 2), (s(24), 3)], vec![(s(17), 5), (s(0), 1)], -5),
        transform(vec![(s(9), 2), (s(3), 2), (s(21), 1)], vec![(s(15), 6)], 7),
        transform(vec![(s(10), 4), (s(12), 2)], vec![(s(18), 5), (s(4), 2)], -6),
        transform(vec![(s(23), 3), (s(5), 1)], vec![(s(11), 6), (s(16), 1)], 0),
        transform(vec![(s(20), 2), (s(2), 2), (s(7), 1)], vec![(s(24), 4), (s(14), 2)], 5),
        transform(vec![(s(13), 4), (s(0), 1)], vec![(s(8), 5), (s(22), 2)], -1),
        transform(vec![(s(15), 3), (s(6), 1), (s(19), 1)], vec![(s(1), 7), (s(20), 1)], 3),
        transform(vec![(s(17), 2), (s(10), 1), (s(4), 1)], vec![(s(23), 5), (s(9), 1)], -4),
        transform(vec![(s(24), 2), (s(14), 1), (s(11), 2)], vec![(s(3), 6), (s(18), 1)], 6),
        transform(vec![(s(22), 3), (s(16), 1), (s(5), 2)], vec![(s(12), 8)], -7),
    ];
    let starting_items = item_set(vec![(s(0), 850), (s(3), 420), (s(7), 310), (s(12), 215), (s(19), 160), (s(24), 95)]);
    let target = item_set(vec![(s(0), 1300), (s(18), 420), (s(23), 260)]);
    proof {
        assert forall|k: int| 0 <= k < loop_stress_recipes().len() implies built_from(#[trigger] recipes@[k], loop_stress_recipes()[k]) by {
            if k == 0 {
                assert(built_from(recipes@[0], loop_stress_recipes()[0]));
            } else if k == 1 {
                assert(built_from(recipes@[1], loop_stress_recipes()[1]));
            } else if k == 2 {
                assert(built_from(recipes@[2], loop_stress_recipes()[2]));
            } else if k == 3 {
                assert(built_from(recipes@[3], loop_stress_recipes()[3]));
            } else if k == 4 {
                assert(built_from(recipes@[4], loop_stress_recipes()[4]));
            } else if k == 5 {
                assert(built_from(recipes@[5], loop_stress_recipes()[5]));
            } else if k == 6 {
                assert(built_from(recipes@[6], loop_stress_recipes()[6]));
            } else if k == 7 {
                assert(built_from(recipes@[7], loop_stress_recipes()[7]));
            } else if k == 8 {
                assert(built_from(recipes@[8], loop_stress_recipes()[8]));
            } else if k == 9 {
                assert(built_from(recipes@[9], loop_stress_recipes()[9]));
            } else if k == 10 {
                assert(built_from(recipes@[10], loop_stress_recipes()[10]));
            } else if k == 11 {
                assert(built_from(recipes@[11], loop_stress_recipes()[11]));
            } else if k == 12 {
                assert(built_from(recipes@[12], loop_stress_recipes()[12]));
            } else if k == 13 {
                assert(built_from(recipes@[13], loop_stress_recipes()[13]));
            } else if k == 14 {
                assert(built_from(recipes@[14], loop_stress_recipes()[14]));
            } else if k == 15 {
                assert(built_from(recipes@[15], loop_stress_recipes()[15]));
            } else if k == 16 {
                assert(built_from(recipes@[16], loop_stress_recipes()[16]));
            } else if k == 17 {
                assert(built_from(recipes@[17], loop_stress_recipes()[17]));
            } else if k == 18 {
                assert(built_from(recipes@[18], loop_stress_recipes()[18]));
            } else if k == 19 {
                assert(built_from(recipes@[19], loop_stress_recipes()[19]));
            } else if k == 20 {
                assert(built_from(recipes@[20], loop_stress_recipes()[20]));
            } else if k == 21 {
                assert(built_from(recipes@[21], loop_stress_recipes()[21]));
            } else if k == 22 {
                assert(built_from(recipes@[22], loop_stress_recipes()[22]));
            } else if k == 23 {
                assert(built_from(recipes@[23], loop_stress_recipes()[23]));
            } else if k == 24 {
                assert(built_from(recipes@[24], loop_stress_recipes()[24]));
            } else if k == 25 {
                assert(built_from(recipes@[25], loop_stress_recipes()[25]));
            } else if k == 26 {
                assert(built_from(recipes@[26], loop_stress_recipes()[26]));
            } else if k == 27 {
                assert(built_from(recipes@[27], loop_stress_recipes()[27]));
            } else if k == 28 {
                assert(built_from(recipes@[28], loop_stress_recipes()[28]));
            } else if k == 29 {
                assert(built_from(recipes@[29], loop_stress_recipes()[29]));
            } else if k == 30 {
                assert(built_from(recipes@[30], loop_stress_recipes()[30]));
            } else if k == 31 {
                assert(built_from(recipes@[31], loop_stress_recipes()[31]));
            } else if k == 32 {
                assert(built_from(recipes@[32], loop_stress_recipes()[32]));
            } else if k == 33 {
                assert(built_from(recipes@[33], loop_stress_recipes()[33]));
            } else if k == 34 {
                assert(built_from(recipes@[34], loop_stress_recipes()[34]));
            } else if k == 35 {
                assert(built_from(recipes@[35], loop_stress_recipes()[35]));
            } else if k == 36 {
                assert(built_from(recipes@[36], loop_stress_recipes()[36]));
            } else if k == 37 {
                assert(built_from(recipes@[37], loop_stress_recipes()[37]));
            } else if k == 38 {
                assert(built_from(recipes@[38], loop_stress_recipes()[38]));
            } else if k == 39 {
                assert(built_from(recipes@[39], loop_stress_recipes()[39]));
            } else if k == 40 {
                assert(built_from(recipes@[40], loop_stress_recipes()[40]));
            } else if k == 41 {
                assert(built_from(recipes@[41], loop_stress_recipes()[41]));
            }
        }
    }
    (recipes, starting_items, target)
}

/// Short name for a stress item below the wrap-around.
fn s(index: usize) -> (id: ItemId)
    requires
        index < STRESS_ITEM_COUNT,
    ensures
        id == STRESS_ITEM_BASE_ID + index,
{
    stress_item_id(index)
}

} // verus!
