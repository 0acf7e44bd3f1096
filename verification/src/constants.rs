//! The constants of a game, as the game announces them, with the values
//! that hold where it announces none.

#![allow(non_snake_case)]

use vstd::prelude::*;

verus! {

/// The amount carried from which a unit turns back to unload.
pub const RETURN: usize = 800;

/// Whether units can be captured.
pub fn capture_enabled() -> (v: bool)
    ensures
        v == false,
{
    false
}

/// The distance within which units count for a capture.
pub fn capture_radius() -> (v: usize)
    ensures
        v == 3usize,
{
    3
}

/// Height of a grid where none is given.
pub fn default_map_height() -> (v: usize)
    ensures
        v == 48usize,
{
    48
}

/// Width of a grid where none is given.
pub fn default_map_width() -> (v: usize)
    ensures
        v == 48usize,
{
    48
}

/// What turning a unit into a dropoff costs.
pub fn dropoff_cost() -> (v: usize)
    ensures
        v == 4000usize,
{
    4000
}

/// The share lost on unloading at another player's dropoff.
pub fn dropoff_penalty_ratio() -> (v: usize)
    ensures
        v == 4usize,
{
    4
}

/// The share of a cell's resource that a unit takes in a turn, as a divisor.
pub fn extract_ratio() -> (v: usize)
    ensures
        v == 4usize,
{
    4
}

/// What a player has banked at the start.
pub fn initial_energy() -> (v: usize)
    ensures
        v == 5000usize,
{
    5000
}

/// Whether units near other players' units collect more.
pub fn inspiration_enabled() -> (v: bool)
    ensures
        v == true,
{
    true
}

/// The distance within which other players' units inspire.
pub fn inspiration_radius() -> (v: usize)
    ensures
        v == 4usize,
{
    4
}

/// How many units of other players it takes to inspire.
pub fn inspiration_ship_count() -> (v: usize)
    ensures
        v == 2usize,
{
    2
}

/// The divisor of what an inspired unit takes in a turn.
pub fn inspired_extract_ratio() -> (v: usize)
    ensures
        v == 4usize,
{
    4
}

/// The divisor of what a move costs an inspired unit.
pub fn inspired_move_cost_ratio() -> (v: usize)
    ensures
        v == 10usize,
{
    10
}

/// The most that a cell holds at the start.
pub fn max_cell_production() -> (v: usize)
    ensures
        v == 1000usize,
{
    1000
}

/// The most that a unit carries.
pub fn max_energy() -> (v: usize)
    ensures
        v == 1000usize,
{
    1000
}

/// The most players in a game.
pub fn max_players() -> (v: usize)
    ensures
        v == 16usize,
{
    16
}

/// The number of turns of the game.
pub fn max_turns() -> (v: usize)
    ensures
        v == 400usize,
{
    400
}

/// The grid size from which a game has the most turns.
pub fn max_turn_threshold() -> (v: usize)
    ensures
        v == 64usize,
{
    64
}

/// The least that the richest cell holds at the start.
pub fn min_cell_production() -> (v: usize)
    ensures
        v == 900usize,
{
    900
}

/// The fewest turns of a game.
pub fn min_turns() -> (v: usize)
    ensures
        v == 400usize,
{
    400
}

/// The grid size up to which a game has the fewest turns.
pub fn min_turn_threshold() -> (v: usize)
    ensures
        v == 32usize,
{
    32
}

/// The divisor of what a move costs a unit.
pub fn move_cost_ratio() -> (v: usize)
    ensures
        v == 10usize,
{
    10
}

/// What spawning a unit costs.
pub fn new_entity_energy_cost() -> (v: usize)
    ensures
        v == 1000usize,
{
    1000
}

/// By how many units a side must lead to capture.
pub fn ships_above_for_capture() -> (v: usize)
    ensures
        v == 3usize,
{
    3
}

/// Whether the game ends a player on a faulty order.
pub fn strict_errors() -> (v: bool)
    ensures
        v == false,
{
    false
}

/// The constants of a game.
#[derive(Clone, Debug)]
pub struct Constants {
    /// Whether units can be captured.
    pub CAPTURE_ENABLED: bool,
    /// The distance within which units count for a capture.
    pub CAPTURE_RADIUS: usize,
    /// Height of a grid where none is given.
    pub DEFAULT_MAP_HEIGHT: usize,
    /// Width of a grid where none is given.
    pub DEFAULT_MAP_WIDTH: usize,
    /// What turning a unit into a dropoff costs.
    pub DROPOFF_COST: usize,
    /// The share lost on unloading at another player's dropoff.
    pub DROPOFF_PENALTY_RATIO: usize,
    /// The share of a cell's resource that a unit takes in a turn, as a divisor.
    pub EXTRACT_RATIO: usize,
    /// What a player has banked at the start.
    pub INITIAL_ENERGY: usize,
    /// Whether units near other players' units collect more.
    pub INSPIRATION_ENABLED: bool,
    /// The distance within which other players' units inspire.
    pub INSPIRATION_RADIUS: usize,
    /// How many units of other players it takes to inspire.
    pub INSPIRATION_SHIP_COUNT: usize,
    /// The divisor of what an inspired unit takes in a turn.
    pub INSPIRED_EXTRACT_RATIO: usize,
    /// The divisor of what a move costs an inspired unit.
    pub INSPIRED_MOVE_COST_RATIO: usize,
    /// The most that a cell holds at the start.
    pub MAX_CELL_PRODUCTION: usize,
    /// The most that a unit carries.
    pub MAX_ENERGY: usize,
    /// The most players in a game.
    pub MAX_PLAYERS: usize,
    /// The number of turns of the game.
    pub MAX_TURNS: usize,
    /// The grid size from which a game has the most turns.
    pub MAX_TURN_THRESHOLD: usize,
    /// The least that the richest cell holds at the start.
    pub MIN_CELL_PRODUCTION: usize,
    /// The fewest turns of a game.
    pub MIN_TURNS: usize,
    /// The grid size up to which a game has the fewest turns.
    pub MIN_TURN_THRESHOLD: usize,
    /// The divisor of what a move costs a unit.
    pub MOVE_COST_RATIO: usize,
    /// What spawning a unit costs.
    pub NEW_ENTITY_ENERGY_COST: usize,
    /// By how many units a side must lead to capture.
    pub SHIPS_ABOVE_FOR_CAPTURE: usize,
    /// Whether the game ends a player on a faulty order.
    pub STRICT_ERRORS: bool,
    /// The seed the game was made from.
    pub GAME_SEED: usize,
}

impl Constants {
    /// The constants of a game that announces none: each has its usual
    /// value, and the seed is zero.
    pub open spec fn usual() -> Constants {
        Constants {
            CAPTURE_ENABLED: false,
            CAPTURE_RADIUS: 3,
            DEFAULT_MAP_HEIGHT: 48,
            DEFAULT_MAP_WIDTH: 48,
            DROPOFF_COST: 4000,
            DROPOFF_PENALTY_RATIO: 4,
            EXTRACT_RATIO: 4,
            INITIAL_ENERGY: 5000,
            INSPIRATION_ENABLED: true,
            INSPIRATION_RADIUS: 4,
            INSPIRATION_SHIP_COUNT: 2,
            INSPIRED_EXTRACT_RATIO: 4,
            INSPIRED_MOVE_COST_RATIO: 10,
            MAX_CELL_PRODUCTION: 1000,
            MAX_ENERGY: 1000,
            MAX_PLAYERS: 16,
            MAX_TURNS: 400,
            MAX_TURN_THRESHOLD: 64,
            MIN_CELL_PRODUCTION: 900,
            MIN_TURNS: 400,
            MIN_TURN_THRESHOLD: 32,
            MOVE_COST_RATIO: 10,
            NEW_ENTITY_ENERGY_COST: 1000,
            SHIPS_ABOVE_FOR_CAPTURE: 3,
            STRICT_ERRORS: false,
            GAME_SEED: 0,
        }
    }
}

impl Default for Constants {
    /// The constants of a game that announces none.
    fn default() -> (c: Constants)
        ensures
            c == Constants::usual(),
    {
        Constants {
            CAPTURE_ENABLED: capture_enabled(),
            CAPTURE_RADIUS: capture_radius(),
            DEFAULT_MAP_HEIGHT: default_map_height(),
            DEFAULT_MAP_WIDTH: default_map_width(),
            DROPOFF_COST: dropoff_cost(),
            DROPOFF_PENALTY_RATIO: dropoff_penalty_ratio(),
            EXTRACT_RATIO: extract_ratio(),
            INITIAL_ENERGY: initial_energy(),
            INSPIRATION_ENABLED: inspiration_enabled(),
            INSPIRATION_RADIUS: inspiration_radius(),
            INSPIRATION_SHIP_COUNT: inspiration_ship_count(),
            INSPIRED_EXTRACT_RATIO: inspired_extract_ratio(),
            INSPIRED_MOVE_COST_RATIO: inspired_move_cost_ratio(),
            MAX_CELL_PRODUCTION: max_cell_production(),
            MAX_ENERGY: max_energy(),
            MAX_PLAYERS: max_players(),
            MAX_TURNS: max_turns(),
            MAX_TURN_THRESHOLD: max_turn_threshold(),
            MIN_CELL_PRODUCTION: min_cell_production(),
            MIN_TURNS: min_turns(),
            MIN_TURN_THRESHOLD: min_turn_threshold(),
            MOVE_COST_RATIO: move_cost_ratio(),
            NEW_ENTITY_ENERGY_COST: new_entity_energy_cost(),
            SHIPS_ABOVE_FOR_CAPTURE: ships_above_for_capture(),
            STRICT_ERRORS: strict_errors(),
            GAME_SEED: 0,
        }
    }
}

} // verus!
