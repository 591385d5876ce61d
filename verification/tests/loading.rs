use mcrs::chunk::collision::{Collider, calculate_collider};
use mcrs::chunk::generation::SolidField;
use mcrs::chunk::loading::{GameData, build_chunk, check_done_load_world, load_world};
use mcrs::chunk::{ChunkConfig, ChunkData};

/// An all-air field around the chunk at `chunk_pos` for depth 8.
fn air_field(chunk_pos: (i32, i32, i32)) -> SolidField {
    let min = (chunk_pos.0 * 8 - 1, chunk_pos.1 * 8 - 1, chunk_pos.2 * 8 - 1);
    let dims = (10, 13, 10);
    let samples = vec![false; 10 * 13 * 10];
    SolidField { min, dims, samples }
}

#[test]
fn loader_requests_the_box_around_the_observer() {
    let config = ChunkConfig::new(8, 1);
    let mut data = GameData::new();

    let dispatched = load_world(&mut data, &config, (0, 0, 0));
    assert_eq!(dispatched.len(), 27);
    for x in -1..2 {
        for y in -1..2 {
            for z in -1..2 {
                assert!(dispatched.contains(&(x, y, z)));
            }
        }
    }
    assert_eq!(data.loading.len(), 27);
}

#[test]
fn loader_is_idempotent_for_an_unmoved_observer() {
    let config = ChunkConfig::new(8, 1);
    let mut data = GameData::new();

    let first = load_world(&mut data, &config, (0, 0, 0));
    assert_eq!(first.len(), 27);
    let second = load_world(&mut data, &config, (0, 0, 0));
    assert_eq!(second.len(), 0);
    assert_eq!(data.loading.len(), 27);
}

#[test]
fn drain_is_capped_per_tick() {
    let config = ChunkConfig::new(8, 1);
    let mut data = GameData::new();
    let dispatched = load_world(&mut data, &config, (0, 0, 0));

    for pos in dispatched.iter() {
        let result = build_chunk(&config, *pos, &air_field(*pos));
        data.done_loading.push(*pos, result);
    }
    assert_eq!(data.done_loading.len(), 27);

    check_done_load_world(&mut data);
    assert_eq!(data.done_loading.len(), 22);
    assert_eq!(data.loaded_chunks.len(), 5);
    assert_eq!(data.loading.len(), 22);
}

#[test]
fn full_load_cycle_makes_the_box_resident() {
    let config = ChunkConfig::new(8, 1);
    let mut data = GameData::new();
    let dispatched = load_world(&mut data, &config, (0, 0, 0));

    for pos in dispatched.iter() {
        let result = build_chunk(&config, *pos, &air_field(*pos));
        data.done_loading.push(*pos, result);
    }
    for _ in 0..6 {
        check_done_load_world(&mut data);
    }

    assert_eq!(data.loaded_chunks.len(), 27);
    assert_eq!(data.loading.len(), 0);
    assert_eq!(data.done_loading.len(), 0);
    for x in -1..2 {
        for y in -1..2 {
            for z in -1..2 {
                assert!(data.loaded_chunks.contains_key(&(x, y, z)));
                assert!(data.colliders.contains_key(&(x, y, z)));
                assert!(data.render_objects.contains_key(&(x, y, z)));
                assert!(data.visibility_graphs.contains_key(&(x, y, z)));
            }
        }
    }
}

#[test]
fn eviction_clears_every_table_at_once() {
    let config = ChunkConfig::new(8, 1);
    let mut data = GameData::new();
    let dispatched = load_world(&mut data, &config, (0, 0, 0));
    for pos in dispatched.iter() {
        let result = build_chunk(&config, *pos, &air_field(*pos));
        data.done_loading.push(*pos, result);
    }
    for _ in 0..6 {
        check_done_load_world(&mut data);
    }

    // the observer moves far away: the old box leaves the radius
    let _ = load_world(&mut data, &config, (800, 0, 0));
    for x in -1..2 {
        for y in -1..2 {
            for z in -1..2 {
                assert!(!data.loaded_chunks.contains_key(&(x, y, z)));
                assert!(!data.colliders.contains_key(&(x, y, z)));
                assert!(!data.render_objects.contains_key(&(x, y, z)));
            }
        }
    }
    assert_eq!(data.loaded_chunks.len(), 0);
}

#[test]
fn done_queue_merges_oldest_first() {
    let config = ChunkConfig::new(8, 1);
    let mut data = GameData::new();
    let dispatched = load_world(&mut data, &config, (0, 0, 0));

    // queue results in dispatch order; the first drained must be the first
    // dispatched
    for pos in dispatched.iter() {
        let result = build_chunk(&config, *pos, &air_field(*pos));
        data.done_loading.push(*pos, result);
    }
    check_done_load_world(&mut data);
    for pos in dispatched.iter().take(5) {
        assert!(data.loaded_chunks.contains_key(pos));
    }
    for pos in dispatched.iter().skip(5) {
        assert!(!data.loaded_chunks.contains_key(pos));
    }
}

#[test]
fn collider_of_an_empty_chunk_is_a_placeholder() {
    let config = ChunkConfig::new(8, 1);
    let chunk = ChunkData::new();
    let collider = calculate_collider(&chunk, &(0, 0, 0), &config);
    assert!(matches!(collider, Collider::Placeholder));
}

#[test]
fn collider_boxes_follow_the_opaque_blocks() {
    let config = ChunkConfig::new(8, 1);
    let mut chunk = ChunkData::new();
    chunk.insert((1, 2, 3), 2);
    chunk.insert((0, 0, 0), 0);  // air: no box
    chunk.insert((-1, 0, 0), 2);  // halo: no box
    let collider = calculate_collider(&chunk, &(2, 0, 0), &config);
    match collider {
        Collider::Compound { translation, blocks } => {
            assert_eq!(translation, (16, 0, 0));
            assert_eq!(blocks, vec![(1, 2, 3)]);
        },
        Collider::Placeholder => panic!("expected a compound collider"),
    }
}
