use voxel_core::block::Block;
use voxel_core::block_pos::BlockPos;
use voxel_core::chunk_data::ChunkData;
use voxel_core::chunk_pos::ChunkPos;
use voxel_core::level::Level;
use voxel_core::physics::{
    move_body, normalize_position, Collider, FixedVec, MARGIN, SCALE,
};

/// A level with exactly one resident chunk at the origin holding one solid
/// block at block position (0, 0, 0).
fn level_with_one_block() -> Level {
    let mut level = Level::new();
    let center = ChunkPos::new(0, 0, 0);
    let acts = level.update_chunks(center, 0, Vec::new());
    assert_eq!(acts.loads_to_start.len(), 1);
    let mut completed = Vec::new();
    completed.push((center, ChunkData::default()));
    level.update_chunks(center, 0, completed);
    let marked = level.edit_block(BlockPos::new(0, 0, 0), Some(Block::Rock));
    assert!(!marked.is_empty());
    level
}

#[test]
fn falling_body_rests_on_the_block_top_margin() {
    let level = level_with_one_block();
    // a 0.8 x 1.7 x 0.8 box two blocks above the solid cell
    let body = Collider {
        min_x: 100,
        min_y: 2 * SCALE,
        min_z: 100,
        max_x: 900,
        max_y: 2 * SCALE + 1700,
        max_z: 900,
    };
    let delta = FixedVec { x: 0, y: -5 * SCALE, z: 0 };
    let velocity = FixedVec { x: 0, y: -5 * SCALE, z: 0 };
    let r = move_body(&level, body, delta, velocity);
    assert!(r.hit_y);
    assert_eq!(r.vy, 0);
    // it lands exactly on the block's top margin
    assert_eq!(body.min_y + r.dy, SCALE + MARGIN);
    assert_eq!(r.dx, 0);
    assert_eq!(r.dz, 0);
}

#[test]
fn resting_body_stays_put() {
    let level = level_with_one_block();
    let body = Collider {
        min_x: 100,
        min_y: SCALE + MARGIN,
        min_z: 100,
        max_x: 900,
        max_y: SCALE + MARGIN + 1700,
        max_z: 900,
    };
    let delta = FixedVec { x: 0, y: -200, z: 0 };
    let velocity = FixedVec { x: 0, y: -200, z: 0 };
    let r = move_body(&level, body, delta, velocity);
    assert!(r.hit_y);
    assert_eq!(r.dy, 0);
    assert_eq!(r.vy, 0);
}

#[test]
fn free_fall_is_unclamped() {
    let level = level_with_one_block();
    // a body far to the side falls freely
    let body = Collider {
        min_x: 10 * SCALE,
        min_y: 2 * SCALE,
        min_z: 10 * SCALE,
        max_x: 11 * SCALE,
        max_y: 3 * SCALE,
        max_z: 11 * SCALE,
    };
    let delta = FixedVec { x: 0, y: -5 * SCALE, z: 0 };
    let velocity = FixedVec { x: 0, y: -5 * SCALE, z: 0 };
    let r = move_body(&level, body, delta, velocity);
    assert!(!r.hit_y);
    assert_eq!(r.dy, -5 * SCALE);
    assert_eq!(r.vy, -5 * SCALE);
}

#[test]
fn horizontal_motion_is_clamped_at_a_wall() {
    let level = level_with_one_block();
    // a body left of the block, moving right into it, level with it
    let body = Collider {
        min_x: -2 * SCALE,
        min_y: 100,
        min_z: 100,
        max_x: -SCALE,
        max_y: 900,
        max_z: 900,
    };
    let delta = FixedVec { x: 3 * SCALE, y: 0, z: 0 };
    let velocity = FixedVec { x: 3 * SCALE, y: 0, z: 0 };
    let r = move_body(&level, body, delta, velocity);
    assert!(r.hit_x);
    assert_eq!(r.vx, 0);
    // the wall face is at x == 0; the body stops a margin short of it
    assert_eq!(body.max_x + r.dx, -MARGIN);
}

#[test]
fn check_collision_is_strict_overlap() {
    let a = Collider { min_x: 0, min_y: 0, min_z: 0, max_x: 10, max_y: 10, max_z: 10 };
    let b = Collider { min_x: 10, min_y: 0, min_z: 0, max_x: 20, max_y: 10, max_z: 10 };
    let c = Collider { min_x: 9, min_y: 9, min_z: 9, max_x: 11, max_y: 11, max_z: 11 };
    assert!(!a.check_collision(b));
    assert!(a.check_collision(c));
}

#[test]
fn extend_sweeps_in_the_direction_of_travel() {
    let a = Collider { min_x: 0, min_y: 0, min_z: 0, max_x: 10, max_y: 10, max_z: 10 };
    let swept = a.extend(FixedVec { x: 5, y: -3, z: 0 });
    assert_eq!(swept.min_x, 0);
    assert_eq!(swept.max_x, 15);
    assert_eq!(swept.min_y, -3);
    assert_eq!(swept.max_y, 10);
    assert_eq!(swept.min_z, 0);
    assert_eq!(swept.max_z, 10);
}

#[test]
fn normalize_position_carries_whole_chunks() {
    let mut grid = ChunkPos::new(0, 0, 0);
    let mut rel = FixedVec { x: 33_500, y: -500, z: 0 };
    normalize_position(&mut grid, &mut rel);
    assert_eq!((grid.x, grid.y, grid.z), (1, -1, 0));
    assert_eq!((rel.x, rel.y, rel.z), (1_500, 31_500, 0));
}

#[test]
fn raycast_hits_the_block_ahead() {
    let level = level_with_one_block();
    let start = BlockPos::new(0, 5, 0);
    let down = FixedVec { x: 0, y: -1000, z: 0 };
    let hit = level.raycast_blocks(start, down, 100);
    assert_eq!(hit, Ok(BlockPos::new(0, 0, 0)));
    let up = FixedVec { x: 0, y: 1000, z: 0 };
    assert!(level.raycast_blocks(start, up, 100).is_err());
}
