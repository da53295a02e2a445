use vstd::prelude::*;

verus! {

/// Largest valid x coordinate of the grid: cells span x in [0, MAP_WIDTH].
pub const MAP_WIDTH: u8 = 8;

/// Largest valid y coordinate of the grid: cells span y in [0, MAP_HEIGHT].
pub const MAP_HEIGHT: u8 = 9;

} // verus!
