//! Meshing: turning a chunk's sparse block data into packed vertex and
//! index buffers.
//!
//! Only positions strictly inside the chunk are meshed; the halo exists so
//! boundary faces can be culled against it, but contributes no geometry.

use vstd::prelude::*;

verus! {

use crate::chunk::block::BlockModel;
use crate::chunk::cube_model::{cube_indices, cube_model, cube_vertices};
use crate::chunk::culling::in_chunk;
use crate::chunk::{ChunkConfig, ChunkData, LOD, Position};

/// The packed value of one vertex: 7 bits per position axis, 4 bits per
/// texture-cell axis, 3 bits of light level.
pub open spec fn pack_vertex(x: int, y: int, z: int, u: int, v: int, a: int) -> u32
    recommends
        x >= 0,
        y >= 0,
        z >= 0,
        u >= 0,
        v >= 0,
        a >= 0,
{
    ((x % 128) * 0x200_0000 + (y % 128) * 0x4_0000 + (z % 128) * 0x800 + (u % 16) * 0x80 + (v % 16)
        * 8 + (a % 8)) as u32
}

/// One mesh vertex, with position, texture cell and light level packed into
/// a single word.
#[derive(Clone, Copy, PartialEq, Eq, Structural, Debug)]
pub struct Vertex {
    pub data: u32,
}

impl Vertex {
    /// Packs a position, a texture cell and a light level into the vertex
    /// format.
    pub fn from(position: [u32; 3], uv: [u32; 2], ao: u32) -> (r: Self)
        ensures
            r.data == pack_vertex(
                position[0] as int,
                position[1] as int,
                position[2] as int,
                uv[0] as int,
                uv[1] as int,
                ao as int,
            ),
    {
        let x = position[0] % 128;
        let y = position[1] % 128;
        let z = position[2] % 128;
        let u = uv[0] % 16;
        let v = uv[1] % 16;
        let a = ao % 8;
        Vertex { data: x * 0x200_0000 + y * 0x4_0000 + z * 0x800 + u * 0x80 + v * 8 + a }
    }
}

/// The geometry of one chunk: packed vertices and triangle indices into
/// them.
pub struct Mesh {
    pub vertices: Vec<Vertex>,
    pub indices: Vec<u16>,
}

/// Whether a stored position contributes geometry: the generated halo is
/// excluded from the mesh.
pub fn should_mesh_block(config: &ChunkConfig, pos: &Position) -> (r: bool)
    ensures
        r == in_chunk(config.depth as int, *pos),
{
    if pos.0 < 0 || pos.1 < 0 || pos.2 < 0 || pos.0 >= config.depth || pos.1 >= config.depth
        || pos.2 >= config.depth {
        return false;
    }
    true
}

/// Whether an entry of the chunk data emits cube geometry: it lies strictly
/// inside the chunk and its block type (after the registry's air fallback)
/// meshes as a cube.
pub open spec fn entry_emits(
    dict: Map<u32, crate::chunk::block::Block>,
    depth: int,
    entry: (Position, u32),
) -> bool {
    &&& in_chunk(depth, entry.0)
    &&& (if dict.contains_key(entry.1) {
        dict[entry.1].model
    } else {
        dict[0u32].model
    }) == BlockModel::Cube
}

/// The vertices of a chunk mesh: each emitting entry contributes its cube's
/// visible faces, in entry order.
pub open spec fn mesh_vertices(
    dict: Map<u32, crate::chunk::block::Block>,
    entries: Seq<(Position, u32)>,
    chunk: Map<Position, u32>,
    depth: int,
) -> Seq<Vertex>
    decreases entries.len(),
{
    if entries.len() == 0 {
        Seq::empty()
    } else {
        mesh_vertices(dict, entries.drop_last(), chunk, depth) + (if entry_emits(
            dict,
            depth,
            entries.last(),
        ) {
            cube_vertices(dict, chunk, entries.last().0)
        } else {
            Seq::empty()
        })
    }
}

/// The indices of a chunk mesh: each face's indices point at the four
/// vertices it appended.
pub open spec fn mesh_indices(
    dict: Map<u32, crate::chunk::block::Block>,
    entries: Seq<(Position, u32)>,
    chunk: Map<Position, u32>,
    depth: int,
) -> Seq<u16>
    decreases entries.len(),
{
    if entries.len() == 0 {
        Seq::empty()
    } else {
        mesh_indices(dict, entries.drop_last(), chunk, depth) + (if entry_emits(
            dict,
            depth,
            entries.last(),
        ) {
            cube_indices(
                dict,
                chunk,
                entries.last().0,
                mesh_vertices(dict, entries.drop_last(), chunk, depth).len() as int,
            )
        } else {
            Seq::empty()
        })
    }
}

/// Walks every stored block of the chunk and emits the visible faces of
/// those strictly inside it. A chunk with no stored blocks yields an empty
/// mesh; a block identifier without a registry entry falls back to air and
/// contributes nothing.
pub fn mesh_chunk(chunk: &ChunkData, config: &ChunkConfig, _lod: LOD) -> (r: Mesh)
    requires
        chunk.wf(),
        config.wf(),
    ensures
        r.vertices@ == mesh_vertices(
            config.dict@,
            chunk.entries_seq(),
            chunk@,
            config.depth as int,
        ),
        r.indices@ == mesh_indices(config.dict@, chunk.entries_seq(), chunk@, config.depth as int),
        chunk.entries_seq().len() == 0 ==> r.vertices@ == Seq::<Vertex>::empty() && r.indices@
            == Seq::<u16>::empty(),
        chunk@ == Map::<Position, u32>::empty() ==> r.vertices@ == Seq::<Vertex>::empty()
            && r.indices@ == Seq::<u16>::empty(),
        // while the vertex buffer fits the index format, every index points
        // into it
        r.vertices@.len() <= 0xFFE8 ==> forall|k: int|
            0 <= k < r.indices@.len() ==> (#[trigger] r.indices@[k]) < r.vertices@.len(),
{
    let mut vertices: Vec<Vertex> = Vec::new();
    let mut indices: Vec<u16> = Vec::new();

    let n = chunk.len();
    let mut i: usize = 0;
    while i < n
        invariant
            chunk.wf(),
            config.wf(),
            n == chunk.entries_seq().len(),
            i <= n,
            vertices@ == mesh_vertices(
                config.dict@,
                chunk.entries_seq().take(i as int),
                chunk@,
                config.depth as int,
            ),
            indices@ == mesh_indices(
                config.dict@,
                chunk.entries_seq().take(i as int),
                chunk@,
                config.depth as int,
            ),
            vertices@.len() <= 0xFFE8 ==> forall|k: int|
                0 <= k < indices@.len() ==> (#[trigger] indices@[k]) < vertices@.len(),
        decreases n - i,
    {
        let ghost pre = chunk.entries_seq().take(i as int);
        let ghost verts_pre = vertices@;
        let ghost idx_pre = indices@;
        let entry = chunk.entry_at(i);
        let position = entry.0;
        let block_id = entry.1;

        if should_mesh_block(config, &position) {
            let block = config.dict.lookup(block_id);
            match block.model {
                BlockModel::Cube => {
                    cube_model(chunk, config, &position, &mut vertices, &mut indices);
                },
                BlockModel::Air => {},
            }
        }
        proof {
            let entries = chunk.entries_seq();
            assert(entries.take(i + 1).drop_last() =~= pre);
            assert(entries.take(i + 1).last() == entries[i as int]);
            if vertices@.len() <= 0xFFE8 {
                assert(verts_pre.len() + 24 <= 0x1_0000);
                assert forall|k: int|
                    0 <= k < indices@.len() implies (#[trigger] indices@[k]) < vertices@.len() by {
                    if k < idx_pre.len() {
                        assert(indices@[k] == idx_pre[k]);
                    }
                }
            }
        }
        i += 1;
    }
    proof {
        assert(chunk.entries_seq().take(n as int) =~= chunk.entries_seq());
        if chunk@ == Map::<Position, u32>::empty() {
            crate::util::pos_map::lemma_map_of_len(chunk.entries_seq());
        }
    }
    Mesh { vertices, indices }
}

} // verus!
