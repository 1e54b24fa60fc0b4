use voxel_core::block_pos::BlockPos;
use voxel_core::chunk::iter_blocks;
use voxel_core::chunk_index::ChunkIndex;
use voxel_core::chunk_pos::ChunkPos;

fn dist_sq(a: ChunkPos, b: ChunkPos) -> i64 {
    let dx = (a.x - b.x) as i64;
    let dy = (a.y - b.y) as i64;
    let dz = (a.z - b.z) as i64;
    dx * dx + dy * dy + dz * dz
}

#[test]
fn chunk_pos_floors_negative_coordinates() {
    let pos = BlockPos::new(-1, -32, 33);
    let chunk = pos.chunk_pos();
    assert_eq!((chunk.x, chunk.y, chunk.z), (-1, -1, 1));
    let rel = pos.relative_pos();
    assert_eq!(rel, (31, 0, 1));
}

#[test]
fn chunk_pos_of_origin() {
    let pos = BlockPos::new(0, 0, 0);
    let chunk = pos.chunk_pos();
    assert_eq!((chunk.x, chunk.y, chunk.z), (0, 0, 0));
    assert_eq!(pos.relative_pos(), (0, 0, 0));
}

#[test]
fn block_pos_of_chunk_corner() {
    let pos = ChunkPos::new(-2, 1, 3).block_pos();
    assert_eq!((pos.x, pos.y, pos.z), (-64, 32, 96));
}

#[test]
fn adjacent_lists_all_six_neighbors() {
    let ns = ChunkPos::new(5, -7, 9).adjacent();
    assert_eq!(ns.len(), 6);
    let expected = [
        ChunkPos::new(4, -7, 9),
        ChunkPos::new(6, -7, 9),
        ChunkPos::new(5, -6, 9),
        ChunkPos::new(5, -8, 9),
        ChunkPos::new(5, -7, 10),
        ChunkPos::new(5, -7, 8),
    ];
    assert_eq!(ns, expected);
}

#[test]
fn chunks_within_radius_one() {
    let center = ChunkPos::new(0, 0, 0);
    let result = center.chunks_within_radius(1);
    assert_eq!(result.len(), 7);
    assert_eq!(result[0], center);
    for p in result.iter() {
        assert!(dist_sq(center, *p) <= 1);
    }
}

#[test]
fn chunks_within_radius_sorted_and_bounded() {
    let center = ChunkPos::new(3, -2, 11);
    let r = 3i64;
    let result = center.chunks_within_radius(3);
    for w in result.windows(2) {
        assert!(dist_sq(center, w[0]) <= dist_sq(center, w[1]));
    }
    for p in result.iter() {
        assert!(dist_sq(center, *p) <= r * r);
    }
    // every offset within the ball appears exactly once
    let mut count = 0;
    for dx in -3i32..=3 {
        for dy in -3i32..=3 {
            for dz in -3i32..=3 {
                if (dx * dx + dy * dy + dz * dz) as i64 <= r * r {
                    let q = ChunkPos::new(center.x + dx, center.y + dy, center.z + dz);
                    assert_eq!(result.iter().filter(|p| **p == q).count(), 1);
                    count += 1;
                }
            }
        }
    }
    assert_eq!(result.len(), count);
}

#[test]
fn iter_blocks_covers_the_volume_in_order() {
    let cells = iter_blocks();
    assert_eq!(cells.len(), 32768);
    assert_eq!(cells[0], (0, 0, 0));
    assert_eq!(cells[1], (0, 0, 1));
    assert_eq!(cells[32], (0, 1, 0));
    assert_eq!(cells[1024], (1, 0, 0));
    assert_eq!(cells[32767], (31, 31, 31));
}

#[test]
fn chunk_index_flattens_row_major() {
    assert_eq!(ChunkIndex::new(0, 0, 0).as_usize(), 0);
    assert_eq!(ChunkIndex::new(1, 0, 0).as_usize(), 1);
    assert_eq!(ChunkIndex::new(0, 1, 0).as_usize(), 32);
    assert_eq!(ChunkIndex::new(0, 0, 1).as_usize(), 1024);
    assert_eq!(ChunkIndex::new(31, 31, 31).as_usize(), 32767);
}

#[test]
fn chunk_index_iter_walks_the_first_indices() {
    let indices = ChunkIndex::iter();
    assert_eq!(indices.len(), 32);
    for (i, idx) in indices.iter().enumerate() {
        assert_eq!(idx.as_usize(), i);
    }
}
