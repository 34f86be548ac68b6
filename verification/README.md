# rs_crafter_sim

A crafting planner: given recipes, a starting inventory and a target, it finds
how often to run each recipe, in which order the runs can be carried out, the
largest craftable amount of the first target item, and which base items are
missing when the target cannot be reached.

The library under `src/` is written in Verus and verified:

- `crafting_domain`: items, item sets, recipes and their identities, route keys.
- `keyed_entries`, `lex_order`: keyed lists and the lexicographic order of keys.
- `route_keys`, `recipe_analysis`: relevance and ranking of recipes by their
  route to the target, producibility, top-priority selection, loop detection.
- `plan_semantics`, `execution_planner`: what carrying out recipes means, and
  turning usage counts into an order that can be carried out.
- `linear_program`: integer programs as plain values, and the one call into
  `good_lp` (with the `microlp` solver) that solves them.
- `integer_programs`: building the programs' bounds and rows, and fixing the
  recipe usages one by one in rank order.
- `crafting_solver`: the loop-breaking search for an executable solution, the
  largest craftable amount and the missing base items.
- `craft_report`: the whole answer for a request: a plan, or what is missing.
- `outcomes`: what the answers promise once carried out, and how recipes that
  make only a target item are ranked.
- `selection_laws`: selecting the top-priority recipes twice keeps the selection.
- `loop_laws`: which identities lie on a loop does not depend on the order of
  the recipes.
- `demo_scenarios`, `progress_logger`: sample scenarios and a progress timer.

`app/main.rs` runs a scenario and prints the results; `tests/` holds the tests.
