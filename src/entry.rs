//! The encoding of a single node entry, and positions in the tree's space.

use vstd::prelude::*;

verus! {

/// Threshold of the entry encoding; also the entry of an empty voxel.
pub const VOXEL_OFFSET: u32 = 2147483647;

/// An empty (unoccupied) voxel.
pub const EMPTY: u32 = 2147483647;

/// A solid voxel with the reserved attribute slot 0.
pub const SOLID: u32 = 2147483648;

/// An occupied octant whose children are not yet materialized. It lies above
/// every possible block pointer and below the solid range.
pub const UNRESOLVED: u32 = 2147483646;

/// The largest number of entries the store may hold; every block start
/// stays below `UNRESOLVED`.
pub const MAX_NODES: usize = 2147483640;

/// The largest number of slots of the voxel attribute table.
pub const MAX_VOXELS: usize = 2147483648;

/// The half side of the tree's cube `[-1, 1]^3` in fixed-point units.
pub const ONE: i64 = 4294967296;

/// An entry that points at the first of eight child slots.
pub open spec fn is_pointer(v: u32) -> bool {
    v < UNRESOLVED
}

/// An empty or solid voxel: a true leaf.
pub open spec fn is_voxel(v: u32) -> bool {
    v >= VOXEL_OFFSET
}

pub open spec fn is_solid(v: u32) -> bool {
    v > VOXEL_OFFSET
}

/// The attribute slot of a solid voxel.
pub open spec fn voxel_index(v: u32) -> int {
    v - VOXEL_OFFSET - 1
}

/// Bit `i` of an occupancy mask.
pub open spec fn bit(m: u8, i: int) -> bool {
    (m >> (i as u8)) & 1u8 != 0u8
}

/// A point in the tree's space, in fixed-point units: `ONE` stands for 1.
#[derive(Clone, Copy, Debug, PartialEq, Eq, Structural)]
pub struct Position {
    pub x: i64,
    pub y: i64,
    pub z: i64,
}

impl Position {
    pub fn new(x: i64, y: i64, z: i64) -> (r: Position)
        ensures
            r == (Position { x, y, z }),
    {
        Position { x, y, z }
    }

    pub fn origin() -> (r: Position)
        ensures
            r == (Position { x: 0, y: 0, z: 0 }),
    {
        Position { x: 0, y: 0, z: 0 }
    }
}

} // verus!
