//! Flat index of one cell within a chunk's row-major storage.

use vstd::prelude::*;

use crate::chunk::{CHUNK_SIZE, CHUNK_VOLUME};

verus! {

/// Index of one cell in a chunk's flat row-major block array
/// (`x` fastest, then `y`, then `z`).
#[derive(Debug, Clone, Copy, PartialEq, Eq, Structural, Hash)]
pub struct ChunkIndex {
    idx: u16,
}

/// The flat row-major index of cell `(x, y, z)`.
pub open spec fn spec_flat_index(x: int, y: int, z: int) -> int {
    x + y * (CHUNK_SIZE as int) + z * (CHUNK_SIZE as int) * (CHUNK_SIZE as int)
}

impl ChunkIndex {
    /// What flat cell this index names.
    pub closed spec fn as_int(self) -> int {
        self.idx as int
    }

    /// A chunk index always lies within the chunk volume.
    pub open spec fn wf(self) -> bool {
        self.as_int() < CHUNK_VOLUME
    }

    /// The index of cell `(x, y, z)` of a chunk.
    pub fn new(x: usize, y: usize, z: usize) -> (index: ChunkIndex)
        requires
            x < CHUNK_SIZE,
            y < CHUNK_SIZE,
            z < CHUNK_SIZE,
        ensures
            index.as_int() == spec_flat_index(x as int, y as int, z as int),
            index.wf(),
    {
        ChunkIndex { idx: (x + y * CHUNK_SIZE + z * CHUNK_SIZE * CHUNK_SIZE) as u16 }
    }

    /// The first `CHUNK_SIZE` indices, in order.
    pub fn iter() -> (indices: Vec<ChunkIndex>)
        ensures
            indices@.len() == CHUNK_SIZE,
            forall|i: int| 0 <= i < indices@.len() ==> (#[trigger] indices@[i]).as_int() == i,
            forall|i: int| 0 <= i < indices@.len() ==> (#[trigger] indices@[i]).wf(),
    {
        let mut indices: Vec<ChunkIndex> = Vec::new();
        let mut i: u16 = 0;
        while (i as usize) < CHUNK_SIZE
            invariant
                i <= CHUNK_SIZE,
                indices@.len() == i,
                forall|k: int| 0 <= k < indices@.len() ==> (#[trigger] indices@[k]).as_int() == k,
                forall|k: int| 0 <= k < indices@.len() ==> (#[trigger] indices@[k]).wf(),
            decreases CHUNK_SIZE - i,
        {
            indices.push(ChunkIndex { idx: i });
            i = i + 1;
        }
        indices
    }

    /// This index as a plain array offset.
    pub fn as_usize(self) -> (offset: usize)
        ensures
            offset == self.as_int(),
    {
        self.idx as usize
    }
}

} // verus!
