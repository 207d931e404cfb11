//! A greedy meal planner.
//!
//! - `taste`: the tastiness scale, its names and multipliers.
//! - `names`: case-insensitive name keys and craving matching.
//! - `food`: foods and the catalog that tracks eaten units and supply.
//! - `ranking`: choosing the next bite among scored candidates.
//! - `planner`: the planning loop that spends a calorie budget.
//! - `search`: comparing, filtering and refining tuning results.
//! - `cli`: the program's commands and the catalog resets.

pub mod cli;
pub mod food;
pub mod names;
pub mod planner;
pub mod ranking;
pub mod search;
pub mod taste;
