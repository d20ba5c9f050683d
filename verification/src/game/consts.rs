//! Constants of the game rules.

use vstd::prelude::*;

verus! {

/// A region with fewer tiles than this earns nothing, pays nothing and needs
/// no capital.
pub const MIN_CONTROLLED_REGION_SIZE: usize = 2;

/// Defence of a tile that holds no unit.
pub const EMPTY_TILE_DEFENCE: u8 = 0;

/// Income that every tile of a region brings each turn.
pub const EMPTY_TILE_INCOME: i32 = 1;

/// Treasury of every controlled region when a game starts.
pub const CONTROLLED_REGION_STARTING_MONEY: i32 = 10;

/// Least share of the map, in percent, that has to be land.
pub const MIN_LOCATION_LAND_COVERAGE_PCT: u8 = 50;

/// Moves per turn of every unit that can move at all.
pub const STANDARD_MOVES_NUM: u32 = 4;

} // verus!
