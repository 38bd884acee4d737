//! A minimum-cost procurement planner for a crafting economy.
//!
//! Each target item can be bought from a public marketplace at tiered unit
//! prices, bought from a fixed-price vendor, or crafted from other items via
//! recipes.  The planner runs a best-first search over partial plans and
//! aggregates the first complete plan popped into a flat shopping list.

pub mod descriptions;
pub mod errors;
pub mod frontier;
pub mod gather;
pub mod planning;
pub mod tp_rest;
