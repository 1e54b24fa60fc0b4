use voxel_core::block::Block;
use voxel_core::block_pos::BlockPos;
use voxel_core::chunk_data::ChunkData;
use voxel_core::chunk_pos::ChunkPos;
use voxel_core::level::{ChunkLifecycle, Level, MAX_LOADS};

fn make_resident(level: &mut Level, center: ChunkPos, radius: i32) {
    // run ticks until every wanted chunk is resident
    loop {
        let acts = level.update_chunks(center, radius, Vec::new());
        if acts.loads_to_start.is_empty() {
            let completed = Vec::new();
            let again = level.update_chunks(center, radius, completed);
            if again.loads_to_start.is_empty() {
                break;
            }
        }
        let mut completed = Vec::new();
        for pos in acts.loads_to_start {
            completed.push((pos, ChunkData::default()));
        }
        level.update_chunks(center, radius, completed);
    }
}

#[test]
fn first_tick_starts_the_nearest_loads() {
    let mut level = Level::new();
    let center = ChunkPos::new(0, 0, 0);
    let acts = level.update_chunks(center, 1, Vec::new());
    // seven chunks lie within radius one; all fit under the cap
    assert_eq!(acts.loads_to_start.len(), 7);
    assert_eq!(acts.loads_to_start[0], center);
    assert!(acts.evicted.is_empty());
}

#[test]
fn load_cap_bounds_inflight_jobs() {
    let mut level = Level::new();
    let center = ChunkPos::new(0, 0, 0);
    // radius three wants 123 chunks, far more than the cap
    let acts = level.update_chunks(center, 3, Vec::new());
    assert_eq!(acts.loads_to_start.len(), MAX_LOADS);
    // nothing new can start until completions free slots
    let acts2 = level.update_chunks(center, 3, Vec::new());
    assert!(acts2.loads_to_start.is_empty());
}

#[test]
fn completed_loads_become_resident() {
    let mut level = Level::new();
    let center = ChunkPos::new(0, 0, 0);
    make_resident(&mut level, center, 1);
    assert!(level.block_at(BlockPos::new(0, 0, 0)).is_none());
    let jobs = level.build_meshes(&Vec::new());
    // every newly resident chunk is dirty and gets one mesh job
    assert_eq!(jobs.len(), 7);
    // once scheduled, nothing is dirty until something changes
    let jobs2 = level.build_meshes(&Vec::new());
    assert!(jobs2.is_empty());
}

#[test]
fn eviction_releases_chunks_outside_the_radius() {
    let mut level = Level::new();
    let center = ChunkPos::new(0, 0, 0);
    make_resident(&mut level, center, 1);
    level.edit_block(BlockPos::new(0, 0, 0), Some(Block::Rock));
    assert_eq!(level.block_at(BlockPos::new(0, 0, 0)), Some(Block::Rock));
    // moving far away evicts everything near the origin
    let far = ChunkPos::new(100, 0, 0);
    let acts = level.update_chunks(far, 1, Vec::new());
    assert_eq!(acts.evicted.len(), 7);
    assert!(level.block_at(BlockPos::new(0, 0, 0)).is_none());
}

#[test]
fn discarded_completion_is_ignored() {
    let mut level = Level::new();
    let center = ChunkPos::new(0, 0, 0);
    // a completion for a position that was never scheduled is dropped
    let mut completed = Vec::new();
    completed.push((ChunkPos::new(50, 0, 0), ChunkData::default()));
    level.update_chunks(center, 1, completed);
    assert!(level
        .block_at(ChunkPos::new(50, 0, 0).block_pos())
        .is_none());
    let jobs = level.build_meshes(&Vec::new());
    assert!(jobs.is_empty());
}

#[test]
fn editing_a_boundary_block_marks_the_chunk_and_its_neighbor() {
    let mut level = Level::new();
    let center = ChunkPos::new(0, 0, 0);
    make_resident(&mut level, center, 1);
    // schedule the initial meshes and report them finished, so nothing is
    // dirty or in flight
    let first = level.build_meshes(&Vec::new());
    let mut finished = Vec::new();
    for job in first.iter() {
        finished.push(job.pos);
    }
    level.build_meshes(&finished);
    // break a block at the +x boundary of the center chunk
    let marked = level.edit_block(BlockPos::new(31, 5, 5), None);
    // the owner and every resident neighbor are marked, nothing else
    assert_eq!(marked.len(), 7);
    assert_eq!(marked[0], center);
    for n in [
        ChunkPos::new(-1, 0, 0),
        ChunkPos::new(1, 0, 0),
        ChunkPos::new(0, 1, 0),
        ChunkPos::new(0, -1, 0),
        ChunkPos::new(0, 0, 1),
        ChunkPos::new(0, 0, -1),
    ] {
        assert_eq!(marked.iter().filter(|p| **p == n).count(), 1);
    }
    // exactly the marked chunks come back dirty
    let jobs = level.build_meshes(&Vec::new());
    assert_eq!(jobs.len(), 7);
    for job in jobs.iter() {
        assert_eq!(marked.iter().filter(|p| **p == job.pos).count(), 1);
    }
}

#[test]
fn placing_into_an_occupied_cell_changes_nothing() {
    let mut level = Level::new();
    let center = ChunkPos::new(0, 0, 0);
    make_resident(&mut level, center, 0);
    let placed = level.edit_block(BlockPos::new(3, 3, 3), Some(Block::Dirt));
    assert!(!placed.is_empty());
    let denied = level.edit_block(BlockPos::new(3, 3, 3), Some(Block::Sand));
    assert!(denied.is_empty());
    assert_eq!(level.block_at(BlockPos::new(3, 3, 3)), Some(Block::Dirt));
    // breaking always applies
    let broken = level.edit_block(BlockPos::new(3, 3, 3), None);
    assert!(!broken.is_empty());
    assert!(level.block_at(BlockPos::new(3, 3, 3)).is_none());
}

#[test]
fn editing_an_absent_chunk_changes_nothing() {
    let mut level = Level::new();
    let marked = level.edit_block(BlockPos::new(0, 0, 0), None);
    assert!(marked.is_empty());
}

#[test]
fn mesh_jobs_snapshot_the_chunk_and_neighbors() {
    let mut level = Level::new();
    let center = ChunkPos::new(0, 0, 0);
    make_resident(&mut level, center, 1);
    level.edit_block(BlockPos::new(0, 0, 0), Some(Block::Grass));
    let jobs = level.build_meshes(&Vec::new());
    let job = jobs.iter().find(|j| j.pos == center).unwrap();
    assert_eq!(
        job.chunk
            .block(voxel_core::chunk_index::ChunkIndex::new(0, 0, 0)),
        Some(Block::Grass)
    );
    // the -x neighbor snapshot is present and empty
    assert!(job.adjacent.left.is_some());
    // completions clear the in-flight flag; an edit then remeshes
    let mut done = Vec::new();
    for j in jobs.iter() {
        done.push(j.pos);
    }
    let jobs2 = level.build_meshes(&done);
    assert!(jobs2.is_empty());
}

#[test]
fn chunk_state_follows_the_lifecycle() {
    let mut level = Level::new();
    let center = ChunkPos::new(0, 0, 0);
    assert_eq!(level.chunk_state(center), ChunkLifecycle::Unloaded);
    let acts = level.update_chunks(center, 0, Vec::new());
    assert_eq!(level.chunk_state(center), ChunkLifecycle::Loading);
    let mut completed = Vec::new();
    for pos in acts.loads_to_start {
        completed.push((pos, ChunkData::default()));
    }
    level.update_chunks(center, 0, completed);
    assert_eq!(level.chunk_state(center), ChunkLifecycle::Resident(true, false));
    level.build_meshes(&Vec::new());
    assert_eq!(level.chunk_state(center), ChunkLifecycle::Resident(false, true));
    let mut done = Vec::new();
    done.push(center);
    level.build_meshes(&done);
    assert_eq!(level.chunk_state(center), ChunkLifecycle::Resident(false, false));
    level.update_chunks(ChunkPos::new(100, 0, 0), 0, Vec::new());
    assert_eq!(level.chunk_state(center), ChunkLifecycle::Unloaded);
}

#[test]
fn in_flight_meshes_defer_remeshing() {
    let mut level = Level::new();
    let center = ChunkPos::new(0, 0, 0);
    make_resident(&mut level, center, 0);
    let first = level.build_meshes(&Vec::new());
    assert_eq!(first.len(), 1);
    // an edit while the mesh job is in flight defers the remesh
    level.edit_block(BlockPos::new(1, 1, 1), Some(Block::Rock));
    let during = level.build_meshes(&Vec::new());
    assert!(during.is_empty());
    assert_eq!(level.chunk_state(center), ChunkLifecycle::Resident(true, true));
    // once the job completes, the dirty chunk is rescheduled
    let mut done = Vec::new();
    done.push(center);
    let after = level.build_meshes(&done);
    assert_eq!(after.len(), 1);
}
