use mcrs::chunk::generation::{SolidField, ao_test, generate, has_air_within_dist, load_chunk};
use mcrs::chunk::ChunkConfig;

/// A field over the chunk at the origin (depth 4) where everything at world
/// height zero or below is solid ground.
fn ground_field() -> SolidField {
    let min = (-1, -1, -1);
    let dims = (6, 9, 6);
    let mut samples = Vec::new();
    for x in 0..6 {
        for y in 0..9 {
            for z in 0..6 {
                let world_y = y + min.1;
                let _ = (x, z);
                samples.push(world_y <= 0);
            }
        }
    }
    SolidField { min, dims, samples }
}

#[test]
fn sampled_verdicts_read_back() {
    let field = ground_field();
    assert!(field.solid(&(0, 0, 0)));
    assert!(field.solid(&(-1, -1, -1)));
    assert!(!field.solid(&(0, 1, 0)));
    assert!(!field.solid(&(4, 7, 4)));
}

#[test]
fn air_probe_walks_upward() {
    let config = ChunkConfig::new(4, 1);
    let field = ground_field();
    // from the surface, air lies one step up
    assert!(has_air_within_dist(&config, &field, [0, 0, 0], 2));
    // from one below the surface, not within two steps but within four
    assert!(!has_air_within_dist(&config, &field, [0, -1, 0], 2));
    assert!(has_air_within_dist(&config, &field, [0, -1, 0], 4));
}

#[test]
fn generation_matches_the_field() {
    let config = ChunkConfig::new(4, 1);
    let field = ground_field();
    let chunk = generate(&config, &(0, 0, 0), &field);

    // exactly the solid positions are present, halo included
    for x in -1..5 {
        for z in -1..5 {
            for y in -1..5 {
                let held = chunk.get(&(x, y, z)).is_some();
                assert_eq!(held, y <= 0);
            }
        }
    }
}

#[test]
fn surface_decoration_layers_grass_over_dirt() {
    let config = ChunkConfig::new(4, 1);
    let field = ground_field();
    let chunk = generate(&config, &(0, 0, 0), &field);

    // the surface row sees air within two blocks: grass
    assert_eq!(chunk.get(&(2, 0, 2)), Some(&1));
    // one below only within four: dirt
    assert_eq!(chunk.get(&(2, -1, 2)), Some(&3));
}

#[test]
fn loading_a_chunk_regenerates_it() {
    let config = ChunkConfig::new(4, 1);
    let field = ground_field();
    let a = load_chunk(&config, &(0, 0, 0), &field);
    let b = generate(&config, &(0, 0, 0), &field);
    assert_eq!(a.len(), b.len());
    assert_eq!(a.get(&(0, 0, 0)), b.get(&(0, 0, 0)));
}

#[test]
fn demo_scene_holds_its_layout() {
    let chunk = ao_test();
    assert_eq!(chunk.len(), 51);
    assert_eq!(chunk.get(&(0, 0, 0)), Some(&1));
    assert_eq!(chunk.get(&(9, 1, 1)), Some(&1));
    assert_eq!(chunk.get(&(3, 0, 0)), None);
}
