//! Integer coordinates and planets.

use vstd::prelude::*;

verus! {

/// A pair of integer coordinates: a chunk's place in the chunk grid, or a
/// block cell's place in the block grid.
#[derive(Clone, Copy, PartialEq, Eq, Debug, Structural)]
pub struct Coord {
    pub x: i32,
    pub y: i32,
}

/// How many chunks a planet spans around (`x`) and upwards (`y`).
#[derive(Clone, Copy, PartialEq, Eq, Debug, Structural)]
pub struct PlanetSize {
    pub x: u32,
    pub y: u32,
}

/// The parts of a planet that the world logic reads: its name, which names
/// its save folder, and its size in chunks.
#[derive(Debug)]
pub struct Planet {
    pub name: String,
    pub size: PlanetSize,
}


/// A planet size times 32 as the game computes it in `u32`, then read as `i32`.
pub open spec fn edge_of(size: u32) -> int {
    ((size * 32) as i32) as int
}

} // verus!
