//! Integer block coordinates and their relation to chunk coordinates.

use vstd::prelude::*;

use crate::chunk::CHUNK_SIZE;
use crate::chunk_pos::ChunkPos;

verus! {

/// The position of one unit block in the infinite voxel grid.
#[derive(Debug, Clone, Copy, PartialEq, Eq, Structural, Hash)]
pub struct BlockPos {
    pub x: i64,
    pub y: i64,
    pub z: i64,
}

/// Coordinates for which the owning chunk coordinate fits an `i32`.
pub open spec fn spec_in_chunk_range(v: int) -> bool {
    i32::MIN * (CHUNK_SIZE as int) <= v < (i32::MAX + 1) * (CHUNK_SIZE as int)
}

impl BlockPos {
    pub fn new(x: i64, y: i64, z: i64) -> (pos: BlockPos)
        ensures
            pos == (BlockPos { x, y, z }),
    {
        BlockPos { x, y, z }
    }

    /// True when every axis maps to a chunk coordinate that fits an `i32`.
    pub open spec fn in_chunk_range(self) -> bool {
        spec_in_chunk_range(self.x as int) && spec_in_chunk_range(self.y as int)
            && spec_in_chunk_range(self.z as int)
    }

    /// The chunk this block belongs to: floor division of each axis by the
    /// chunk edge length, so negative coordinates round toward negative
    /// infinity.
    pub fn chunk_pos(self) -> (chunk: ChunkPos)
        requires
            self.in_chunk_range(),
        ensures
            chunk.x == self.x as int / (CHUNK_SIZE as int),
            chunk.y == self.y as int / (CHUNK_SIZE as int),
            chunk.z == self.z as int / (CHUNK_SIZE as int),
    {
        ChunkPos::new(
            div_floor_chunk(self.x) as i32,
            div_floor_chunk(self.y) as i32,
            div_floor_chunk(self.z) as i32,
        )
    }

    /// The position of this block within its chunk: the Euclidean remainder
    /// of each axis by the chunk edge length, always in `[0, CHUNK_SIZE)`.
    pub fn relative_pos(self) -> (rel: (usize, usize, usize))
        ensures
            rel.0 == self.x as int % (CHUNK_SIZE as int),
            rel.1 == self.y as int % (CHUNK_SIZE as int),
            rel.2 == self.z as int % (CHUNK_SIZE as int),
            rel.0 < CHUNK_SIZE && rel.1 < CHUNK_SIZE && rel.2 < CHUNK_SIZE,
    {
        (
            rem_euclid_chunk(self.x) as usize,
            rem_euclid_chunk(self.y) as usize,
            rem_euclid_chunk(self.z) as usize,
        )
    }

    /// Component-wise sum.
    pub fn plus(self, rhs: BlockPos) -> (sum: BlockPos)
        requires
            i64::MIN <= self.x + rhs.x <= i64::MAX,
            i64::MIN <= self.y + rhs.y <= i64::MAX,
            i64::MIN <= self.z + rhs.z <= i64::MAX,
        ensures
            sum.x == self.x + rhs.x,
            sum.y == self.y + rhs.y,
            sum.z == self.z + rhs.z,
    {
        BlockPos { x: self.x + rhs.x, y: self.y + rhs.y, z: self.z + rhs.z }
    }

    /// Component-wise difference.
    pub fn minus(self, rhs: BlockPos) -> (diff: BlockPos)
        requires
            i64::MIN <= self.x - rhs.x <= i64::MAX,
            i64::MIN <= self.y - rhs.y <= i64::MAX,
            i64::MIN <= self.z - rhs.z <= i64::MAX,
        ensures
            diff.x == self.x - rhs.x,
            diff.y == self.y - rhs.y,
            diff.z == self.z - rhs.z,
    {
        BlockPos { x: self.x - rhs.x, y: self.y - rhs.y, z: self.z - rhs.z }
    }
}

/// Floor division of a block coordinate by the chunk edge length.
pub fn div_floor_chunk(v: i64) -> (q: i64)
    ensures
        q == v as int / (CHUNK_SIZE as int),
    {
    let q = v.checked_div_euclid(CHUNK_SIZE as i64);
    q.unwrap()
}

/// Euclidean remainder of a block coordinate by the chunk edge length.
pub fn rem_euclid_chunk(v: i64) -> (r: i64)
    ensures
        r == v as int % (CHUNK_SIZE as int),
        0 <= r < CHUNK_SIZE,
{
    let r = v.checked_rem_euclid(CHUNK_SIZE as i64);
    r.unwrap()
}

} // verus!
