use voxel_core::block::Block;
use voxel_core::block_pos::BlockPos;
use voxel_core::chunk_index::ChunkIndex;
use voxel_core::chunk_pos::ChunkPos;
use voxel_core::level_generator::LevelGenerator;

#[test]
fn generation_is_deterministic() {
    let a = LevelGenerator::new(42).generate_chunk(ChunkPos::new(0, 1, 0));
    let b = LevelGenerator::new(42).generate_chunk(ChunkPos::new(0, 1, 0));
    assert_eq!(a.serialize(), b.serialize());
}

#[test]
fn generation_depends_on_position() {
    let generator = LevelGenerator::new(42);
    let a = generator.generate_chunk(ChunkPos::new(0, 1, 0));
    let far_above = generator.generate_chunk(ChunkPos::new(0, 100, 0));
    assert_ne!(a.serialize(), far_above.serialize());
}

#[test]
fn chunks_far_above_the_surface_are_empty() {
    // the surface lies within about 30 blocks of sea level (60), so
    // y >= 3200 is always air
    let generator = LevelGenerator::new(7);
    let chunk = generator.generate_chunk(ChunkPos::new(2, 100, -3));
    for x in 0..32 {
        for z in 0..32 {
            for y in 0..32 {
                assert!(chunk.block(ChunkIndex::new(x, y, z)).is_none());
            }
        }
    }
}

#[test]
fn chunks_far_below_the_surface_are_solid() {
    let generator = LevelGenerator::new(7);
    let chunk = generator.generate_chunk(ChunkPos::new(-1, 0, 5));
    for x in 0..32 {
        for z in 0..32 {
            for y in 0..32 {
                assert!(chunk.block(ChunkIndex::new(x, y, z)).is_some());
            }
        }
    }
}

#[test]
fn generate_block_matches_generate_chunk() {
    let generator = LevelGenerator::new(123);
    let pos = ChunkPos::new(0, 1, 0);
    let chunk = generator.generate_chunk(pos);
    let base = pos.block_pos();
    for x in 0..32usize {
        for y in 0..32usize {
            for z in 0..32usize {
                let world = BlockPos::new(base.x + x as i64, base.y + y as i64, base.z + z as i64);
                assert_eq!(
                    chunk.block(ChunkIndex::new(x, y, z)),
                    generator.generate_block(world)
                );
            }
        }
    }
}

#[test]
fn columns_are_grass_or_sand_at_the_surface() {
    // in the chunk spanning y 32..64 every column crosses or misses the
    // surface; where a topmost filled cell exists below y 63 it is grass or
    // sand, never dirt
    let generator = LevelGenerator::new(99);
    let chunk = generator.generate_chunk(ChunkPos::new(0, 1, 0));
    for x in 0..32usize {
        for z in 0..32usize {
            let mut top: Option<Block> = None;
            let mut top_y = 0usize;
            for y in 0..32usize {
                if let Some(b) = chunk.block(ChunkIndex::new(x, y, z)) {
                    top = Some(b);
                    top_y = y;
                }
            }
            if let Some(b) = top {
                if top_y < 31 {
                    assert!(b == Block::Grass || b == Block::Sand);
                }
            }
        }
    }
}
