use mcrs::chunk::block::{Block, BlockDictionary, BlockModel};
use mcrs::chunk::cube_model::is_transparent;
use mcrs::chunk::meshing::{Vertex, mesh_chunk, should_mesh_block};
use mcrs::chunk::{ChunkConfig, ChunkData, calc_lod};

fn config_depth_8() -> ChunkConfig {
    ChunkConfig::new(8, 2)
}

#[test]
fn vertex_packing_uses_fixed_bit_fields() {
    let v = Vertex::from([3, 4, 5], [2, 1], 2);
    assert_eq!(
        v.data,
        3 * 0x200_0000 + 4 * 0x4_0000 + 5 * 0x800 + 2 * 0x80 + 1 * 8 + 2
    );
    // out-of-range inputs are masked to their fields
    let w = Vertex::from([128, 0, 0], [16, 0], 8);
    assert_eq!(w.data, 0);
}

#[test]
fn halo_positions_are_not_meshed() {
    let config = config_depth_8();
    assert!(should_mesh_block(&config, &(0, 0, 0)));
    assert!(should_mesh_block(&config, &(7, 7, 7)));
    assert!(!should_mesh_block(&config, &(-1, 0, 0)));
    assert!(!should_mesh_block(&config, &(0, 8, 0)));
}

#[test]
fn empty_chunk_meshes_to_nothing() {
    let config = config_depth_8();
    let chunk = ChunkData::new();
    let mesh = mesh_chunk(&chunk, &config, calc_lod());
    assert_eq!(mesh.vertices.len(), 0);
    assert_eq!(mesh.indices.len(), 0);
}

#[test]
fn lone_block_emits_six_faces() {
    let config = config_depth_8();
    let mut chunk = ChunkData::new();
    chunk.insert((0, 0, 0), 1);
    let mesh = mesh_chunk(&chunk, &config, calc_lod());
    assert_eq!(mesh.vertices.len(), 24);
    assert_eq!(mesh.indices.len(), 36);

    // first quad: the top face of a grass block in full light
    assert_eq!(mesh.vertices[0].data, 1 * 0x4_0000 + 1 * 0x800 + 2);
    assert_eq!(&mesh.indices[0..6], &[0, 3, 2, 0, 1, 3]);
}

#[test]
fn buried_block_emits_nothing() {
    let config = config_depth_8();
    let mut chunk = ChunkData::new();
    // a 3x3x3 cube of stone; its center block has no transparent neighbor
    for x in 0..3 {
        for y in 0..3 {
            for z in 0..3 {
                chunk.insert((x, y, z), 2);
            }
        }
    }
    let full = mesh_chunk(&chunk, &config, calc_lod());
    // 26 boundary blocks of the 3x3x3 cube emit faces; the center emits none:
    // removing it from the data changes nothing but the surface facing it
    let faces = full.indices.len() / 6;
    assert_eq!(faces, 54);
}

#[test]
fn solid_chunk_emits_only_boundary_faces() {
    let config = config_depth_8();
    let mut chunk = ChunkData::new();
    for x in 0..8 {
        for y in 0..8 {
            for z in 0..8 {
                chunk.insert((x, y, z), 2);
            }
        }
    }
    let mesh = mesh_chunk(&chunk, &config, calc_lod());
    // every face between two in-bounds blocks is culled: the six 8x8 sides
    // of the cube remain
    assert_eq!(mesh.indices.len() / 6, 6 * 8 * 8);
    assert_eq!(mesh.vertices.len() / 4, 6 * 8 * 8);
    // and every index points into the vertex buffer
    assert!(mesh.indices.iter().all(|&ix| (ix as usize) < mesh.vertices.len()));
}

#[test]
fn unknown_block_id_falls_back_to_air() {
    let config = config_depth_8();
    let mut chunk = ChunkData::new();
    chunk.insert((0, 0, 0), 999);
    let mesh = mesh_chunk(&chunk, &config, calc_lod());
    assert_eq!(mesh.vertices.len(), 0);
    assert_eq!(mesh.indices.len(), 0);
}

#[test]
fn occluded_corner_vertices_lose_light() {
    let config = config_depth_8();
    let mut chunk = ChunkData::new();
    chunk.insert((0, 0, 0), 1);
    // a block diagonally above attenuates the shared top-face corner
    chunk.insert((1, 1, 1), 1);
    let mesh = mesh_chunk(&chunk, &config, calc_lod());
    // the top face of the block at the origin is still emitted, but its
    // corner toward the neighbor now carries the half light level
    let shaded = mesh
        .vertices
        .iter()
        .filter(|v| v.data & 0x7 == 1)
        .count();
    assert!(shaded > 0);
}

#[test]
fn registry_lookup_never_fails() {
    let dict = BlockDictionary::with_defaults();
    let grass: &Block = dict.lookup(1);
    assert_eq!(grass.model, BlockModel::Cube);
    assert!(!grass.transparent);
    assert_eq!(grass.ident, "grass");
    let unknown: &Block = dict.lookup(4096);
    assert_eq!(unknown.model, BlockModel::Air);
    assert!(unknown.transparent);
}

#[test]
fn absent_positions_are_air_whatever_the_registry_holds() {
    let mut config = config_depth_8();
    // even a hostile registry entry at the largest identifier cannot make
    // empty space opaque
    config.dict.insert(
        u32::MAX,
        Block {
            model: BlockModel::Cube,
            transparent: false,
            ident: "suspicious".to_owned(),
            uv: [3, 0],
        },
    );
    let chunk = ChunkData::new();
    assert!(is_transparent(&chunk, &config, &(0, 0, 0)));

    let mut held = ChunkData::new();
    held.insert((0, 0, 0), u32::MAX);
    assert!(!is_transparent(&held, &config, &(0, 0, 0)));
}
