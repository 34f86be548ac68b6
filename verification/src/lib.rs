//! Crafting planner: which recipes to run, in which order, to reach a target
//! inventory from a starting inventory.
pub mod keyed_entries;
pub mod lex_order;
pub mod route_keys;
pub mod crafting_domain;
pub mod plan_semantics;
pub mod recipe_analysis;
pub mod execution_planner;
pub mod linear_program;
pub mod crafting_solver;
pub mod demo_scenarios;
pub mod progress_logger;
pub mod outcomes;
pub mod integer_programs;
pub mod craft_report;
pub mod selection_laws;
pub mod loop_laws;
pub mod program_laws;
