use mcrs::chunk::{
    ChunkConfig, ChunkData, ChunkStorage, chunk_id, chunk_pos_from_id, chunk_position, get_block,
    global_chunk_pos, local_block_pos, local_position,
};

fn config_depth_16() -> ChunkConfig {
    ChunkConfig::new(16, 4)
}

#[test]
fn local_positions_are_always_in_range() {
    let config = config_depth_16();
    for pos in [-33, -17, -16, -1, 0, 1, 15, 16, 31, 1000, -1000] {
        let local = local_block_pos(&config, pos);
        assert!(0 <= local && local < 16);
    }
}

#[test]
fn negative_coordinates_map_to_negative_chunks() {
    let config = config_depth_16();
    assert_eq!(local_block_pos(&config, -1), 15);
    assert_eq!(global_chunk_pos(&config, -1), -1);
    assert_eq!(global_chunk_pos(&config, -16), -1);
    assert_eq!(global_chunk_pos(&config, -17), -2);
    assert_eq!(global_chunk_pos(&config, 15), 0);
    assert_eq!(global_chunk_pos(&config, 16), 1);
}

#[test]
fn chunk_and_local_recombine_to_world_position() {
    let config = config_depth_16();
    for pos in [-100, -16, -1, 0, 7, 16, 99, 12345, -54321] {
        let chunk = global_chunk_pos(&config, pos);
        let local = local_block_pos(&config, pos);
        assert_eq!(chunk * 16 + local, pos);
    }
}

#[test]
fn position_tuples_convert_per_axis() {
    let config = config_depth_16();
    assert_eq!(local_position(&config, &(-1, 0, 17)), (15, 0, 1));
    assert_eq!(chunk_position(&config, &(-1, 0, 17)), (-1, 0, 1));
}

#[test]
fn chunk_identifier_round_trips() {
    for pos in [(0, 0, 0), (5, -7, 9), (-1, -1, -1), (i32::MAX, i32::MIN, 123)] {
        let id = chunk_id(&pos);
        assert_eq!(chunk_pos_from_id(id), pos);
    }
}

#[test]
fn chunk_identifiers_are_distinct() {
    assert_ne!(chunk_id(&(0, 0, 1)), chunk_id(&(0, 1, 0)));
    assert_ne!(chunk_id(&(1, 0, 0)), chunk_id(&(-1, 0, 0)));
}

#[test]
fn get_block_reads_across_loaded_chunks() {
    let config = config_depth_16();
    let mut store = ChunkStorage::new();
    let mut chunk = ChunkData::new();
    chunk.insert((15, 0, 1), 3);
    store.insert((-1, 0, 1), chunk);

    assert_eq!(get_block(&config, &store, &(-1, 0, 17)), 3);
    assert_eq!(get_block(&config, &store, &(0, 0, 17)), 0);
    assert_eq!(get_block(&config, &store, &(-1, 0, 1)), 0);
}
