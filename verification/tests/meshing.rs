use voxel_core::block::Block;
use voxel_core::chunk::{generate_mesh, AdjacentChunks};
use voxel_core::chunk_data::ChunkData;
use voxel_core::chunk_index::ChunkIndex;
use voxel_core::chunk_pos::ChunkPos;
use voxel_core::level_generator::LevelGenerator;

fn no_neighbors() -> AdjacentChunks {
    AdjacentChunks {
        left: None,
        right: None,
        top: None,
        bottom: None,
        front: None,
        back: None,
    }
}

fn empty_neighbors() -> AdjacentChunks {
    AdjacentChunks {
        left: Some(ChunkData::default()),
        right: Some(ChunkData::default()),
        top: Some(ChunkData::default()),
        bottom: Some(ChunkData::default()),
        front: Some(ChunkData::default()),
        back: Some(ChunkData::default()),
    }
}

#[test]
fn empty_chunk_yields_no_geometry() {
    let chunk = ChunkData::default();
    let mesh = generate_mesh(&chunk, no_neighbors());
    assert_eq!(mesh.count_vertices(), 0);
    assert_eq!(mesh.index_data().len(), 0);
}

#[test]
fn single_cube_yields_six_faces() {
    let mut chunk = ChunkData::default();
    chunk.block_mut(ChunkIndex::new(5, 6, 7), Some(Block::Rock));
    let mesh = generate_mesh(&chunk, empty_neighbors());
    // six visible faces: four vertices and six indices each
    assert_eq!(mesh.count_vertices(), 24);
    assert_eq!(mesh.index_data().len(), 36);
    for idx in mesh.index_data().iter() {
        assert!((*idx as usize) < mesh.count_vertices());
    }
}

#[test]
fn two_touching_cubes_hide_their_shared_faces() {
    let mut chunk = ChunkData::default();
    chunk.block_mut(ChunkIndex::new(5, 6, 7), Some(Block::Rock));
    chunk.block_mut(ChunkIndex::new(6, 6, 7), Some(Block::Rock));
    let mesh = generate_mesh(&chunk, empty_neighbors());
    // ten visible faces: each cube shows five
    assert_eq!(mesh.count_vertices(), 40);
    assert_eq!(mesh.index_data().len(), 60);
}

#[test]
fn absent_neighbors_hide_boundary_faces() {
    let mut chunk = ChunkData::default();
    // a block in the chunk corner: three faces point at absent neighbors,
    // which count as occupied, so only the three interior faces show
    chunk.block_mut(ChunkIndex::new(0, 0, 0), Some(Block::Dirt));
    let mesh = generate_mesh(&chunk, no_neighbors());
    assert_eq!(mesh.count_vertices(), 12);
    assert_eq!(mesh.index_data().len(), 18);
}

#[test]
fn empty_neighbors_show_boundary_faces() {
    let mut chunk = ChunkData::default();
    chunk.block_mut(ChunkIndex::new(0, 0, 0), Some(Block::Dirt));
    let mesh = generate_mesh(&chunk, empty_neighbors());
    assert_eq!(mesh.count_vertices(), 24);
    assert_eq!(mesh.index_data().len(), 36);
}

#[test]
fn face_materials_follow_the_block_and_face() {
    assert_eq!(Block::Dirt.face_index(voxel_core::block::BlockFace::Top), 0);
    assert_eq!(Block::Grass.face_index(voxel_core::block::BlockFace::Top), 2);
    assert_eq!(
        Block::Grass.face_index(voxel_core::block::BlockFace::Bottom),
        0
    );
    assert_eq!(Block::Grass.face_index(voxel_core::block::BlockFace::Left), 1);
    assert_eq!(Block::Rock.face_index(voxel_core::block::BlockFace::Front), 3);
    assert_eq!(Block::Sand.face_index(voxel_core::block::BlockFace::Back), 4);
}

#[test]
fn adjacent_generated_chunks_mesh_consistently_at_their_boundary() {
    // generating two neighboring chunks with one seed and meshing them
    // together must not add faces at the shared boundary beyond what each
    // side's occupancy implies: meshing with the true neighbor never shows
    // more faces than meshing against an absent (all-occupied) neighbor
    // plus the open boundary cells
    let generator = LevelGenerator::new(42);
    let a = generator.generate_chunk(ChunkPos::new(0, 1, 0));
    let b = generator.generate_chunk(ChunkPos::new(1, 1, 0));

    let mut with_neighbor = no_neighbors();
    with_neighbor.right = Some(generator.generate_chunk(ChunkPos::new(1, 1, 0)));
    let mesh_with = generate_mesh(&a, with_neighbor);

    // count boundary cells of `a` that are filled while the facing cell of
    // `b` is empty: exactly these may add right-facing boundary quads
    let mut open_boundary = 0usize;
    for y in 0..32 {
        for z in 0..32 {
            let a_filled = a.block(ChunkIndex::new(31, y, z)).is_some();
            let b_filled = b.block(ChunkIndex::new(0, y, z)).is_some();
            if a_filled && !b_filled {
                open_boundary += 1;
            }
        }
    }
    let mesh_closed = generate_mesh(&a, no_neighbors());
    assert_eq!(
        mesh_with.count_vertices(),
        mesh_closed.count_vertices() + 4 * open_boundary
    );
}
