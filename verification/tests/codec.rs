use voxel_core::block::Block;
use voxel_core::chunk_data::ChunkData;
use voxel_core::chunk_index::ChunkIndex;

#[test]
fn empty_chunk_serializes_to_single_record() {
    let chunk = ChunkData::default();
    let data = chunk.serialize();
    assert_eq!(data, vec![0x80, 0x00, 0x00]);
}

#[test]
fn empty_chunk_round_trips() {
    let chunk = ChunkData::default();
    let data = chunk.serialize();
    let back = ChunkData::deserialize(&data).unwrap();
    for x in 0..32 {
        for y in 0..32 {
            for z in 0..32 {
                assert!(back.block(ChunkIndex::new(x, y, z)).is_none());
            }
        }
    }
}

#[test]
fn mixed_chunk_round_trips() {
    let mut chunk = ChunkData::default();
    chunk.block_mut(ChunkIndex::new(0, 0, 0), Some(Block::Dirt));
    chunk.block_mut(ChunkIndex::new(1, 0, 0), Some(Block::Grass));
    chunk.block_mut(ChunkIndex::new(31, 31, 31), Some(Block::Sand));
    chunk.block_mut(ChunkIndex::new(10, 20, 30), Some(Block::Rock));
    let data = chunk.serialize();
    let back = ChunkData::deserialize(&data).unwrap();
    assert_eq!(back.block(ChunkIndex::new(0, 0, 0)), Some(Block::Dirt));
    assert_eq!(back.block(ChunkIndex::new(1, 0, 0)), Some(Block::Grass));
    assert_eq!(back.block(ChunkIndex::new(31, 31, 31)), Some(Block::Sand));
    assert_eq!(back.block(ChunkIndex::new(10, 20, 30)), Some(Block::Rock));
    assert!(back.block(ChunkIndex::new(2, 0, 0)).is_none());
    assert_eq!(back.serialize(), data);
}

#[test]
fn uniform_full_chunk_round_trips() {
    let mut chunk = ChunkData::default();
    for x in 0..32 {
        for y in 0..32 {
            for z in 0..32 {
                chunk.block_mut(ChunkIndex::new(x, y, z), Some(Block::Rock));
            }
        }
    }
    let data = chunk.serialize();
    // one record: count 32768, value code(Rock) + 1
    assert_eq!(data, vec![0x80, 0x00, 0x03]);
    let back = ChunkData::deserialize(&data).unwrap();
    assert_eq!(back.block(ChunkIndex::new(15, 15, 15)), Some(Block::Rock));
}

#[test]
fn truncated_stream_is_rejected() {
    assert!(ChunkData::deserialize(&[0x80]).is_none());
    assert!(ChunkData::deserialize(&[0x80, 0x00]).is_none());
    assert!(ChunkData::deserialize(&[0x80, 0x00, 0x00, 0x01]).is_none());
}

#[test]
fn unknown_block_code_is_rejected() {
    // one record of 32768 cells of value 9, which names no block kind
    assert!(ChunkData::deserialize(&[0x80, 0x00, 0x09]).is_none());
}

#[test]
fn wrong_total_is_rejected() {
    // a single record of one empty cell: 1 != 32768
    assert!(ChunkData::deserialize(&[0x00, 0x01, 0x00]).is_none());
    // 32769 cells: one too many
    assert!(ChunkData::deserialize(&[0x80, 0x01, 0x00]).is_none());
    assert!(ChunkData::deserialize(&[]).is_none());
}

#[test]
fn zero_count_record_is_ignored() {
    // a zero-length run contributes nothing, then a whole empty chunk
    let back = ChunkData::deserialize(&[0x00, 0x00, 0x09, 0x80, 0x00, 0x00]);
    assert!(back.is_some());
    assert!(back.unwrap().block(ChunkIndex::new(0, 0, 0)).is_none());
}

#[test]
fn block_codes_round_trip() {
    for (block, code) in [
        (Block::Dirt, 0u8),
        (Block::Grass, 1),
        (Block::Rock, 2),
        (Block::Sand, 3),
    ] {
        assert_eq!(block.to_u8(), code);
        assert_eq!(Block::from_u8(code), Some(block));
    }
    assert_eq!(Block::from_u8(4), None);
    assert_eq!(Block::from_u8(255), None);
}
