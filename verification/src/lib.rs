//! Per-turn planning for a fleet of units on a toroidal grid.
//!
//! - `torus`: distances, steps and directions on a grid that wraps around.
//! - `data`: the values of a snapshot: cells, units, bases, dropoffs.
//! - `schedule`: the store of reserved (cell, turn) slots and of routes.
//! - `grid`: one turn's view of the grid, and the choice of a unit's move:
//!   by its stored route, by a search in cells and turns, or by a fallback.
//! - `search`: the bookkeeping of that search.
//! - `assign`: the assignment of units to destinations at least total cost.
//! - `rank`: the order in which the units of a fleet are served.
//! - `strategy`: a whole turn, from the snapshot to the orders.
//! - `command`: the orders and their text.
//! - `orbit`: the orders of a game of ships and planets, and their text.
//! - `parse`: the reader of the game's lines.
//! - `constants`: the constants of a game.
//! - `bitset`, `tables`: what is relied on from the crates `fixedbitset`
//!   and `fnv`.

pub mod assign;
pub mod bitset;
pub mod command;
pub mod constants;
pub mod data;
pub mod grid;
pub mod orbit;
pub mod parse;
pub mod rank;
pub mod schedule;
pub mod search;
pub mod strategy;
pub mod tables;
pub mod torus;
