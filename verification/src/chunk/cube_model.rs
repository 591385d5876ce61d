//! The cube meshing strategy: per-face emission with neighbor culling and
//! per-vertex ambient occlusion.
//!
//! A cube block emits one quad per face whose neighboring position is
//! transparent. Each quad carries four packed vertices and six indices with
//! a fixed winding per face direction; each vertex's light level is
//! attenuated when any of three blocks diagonally adjacent to its corner is
//! opaque.

use vstd::prelude::*;

verus! {

use crate::chunk::block::Block;
use crate::chunk::culling::Side;
use crate::chunk::meshing::{Vertex, pack_vertex};
use crate::chunk::{ChunkConfig, ChunkData, Position};

/// Whether sight passes through `position`: the position is absent (air),
/// holds a block type registered as transparent, or holds an identifier the
/// registry does not know (which falls back to air). An absent position is
/// always transparent, whatever the registry holds.
pub open spec fn transparent_at(
    dict: Map<u32, Block>,
    chunk: Map<Position, u32>,
    position: Position,
) -> bool {
    if !chunk.contains_key(position) {
        true
    } else if dict.contains_key(chunk[position]) {
        dict[chunk[position]].transparent
    } else {
        true
    }
}

/// Whether the block at `position` lets sight through; an absent or unknown
/// block counts as transparent.
pub fn is_transparent(chunk: &ChunkData, chunk_config: &ChunkConfig, position: &Position) -> (r:
    bool)
    requires
        chunk.wf(),
        chunk_config.wf(),
    ensures
        r == transparent_at(chunk_config.dict@, chunk@, *position),
{
    let block: u32 = match chunk.get(position) {
        Some(b) => *b,
        None => {
            return true;
        },
    };
    match chunk_config.dict.get(block) {
        Some(b) => b.transparent,
        None => true,
    }
}

/// `p` displaced by one offset per axis.
pub open spec fn off(p: Position, dx: int, dy: int, dz: int) -> Position {
    ((p.0 + dx) as i32, (p.1 + dy) as i32, (p.2 + dz) as i32)
}

/// The light level of a face vertex: `2` (full) unless one of the three
/// blocks above the sampled corner positions is opaque, then `1` (half).
pub open spec fn ao_level(
    dict: Map<u32, Block>,
    chunk: Map<Position, u32>,
    p1: Position,
    p2: Position,
    p3: Position,
) -> int {
    if !transparent_at(dict, chunk, off(p1, 0, 1, 0)) || !transparent_at(
        dict,
        chunk,
        off(p2, 0, 1, 0),
    ) || !transparent_at(dict, chunk, off(p3, 0, 1, 0)) {
        1
    } else {
        2
    }
}

/// Samples the three corner-adjacent positions and returns the vertex light
/// level.
fn ao(chunk: &ChunkData, chunk_config: &ChunkConfig, p1: &Position, p2: &Position, p3: &Position)
    -> (r: u32)
    requires
        chunk.wf(),
        chunk_config.wf(),
        p1.1 < i32::MAX,
        p2.1 < i32::MAX,
        p3.1 < i32::MAX,
    ensures
        r as int == ao_level(chunk_config.dict@, chunk@, *p1, *p2, *p3),
{
    if !is_transparent(chunk, chunk_config, &(p1.0, p1.1 + 1, p1.2)) || !is_transparent(
        chunk,
        chunk_config,
        &(p2.0, p2.1 + 1, p2.2),
    ) || !is_transparent(chunk, chunk_config, &(p3.0, p3.1 + 1, p3.2)) {
        1
    } else {
        2
    }
}

/// The texture-cell origin of the block held at `p`.
pub open spec fn block_uv(dict: Map<u32, Block>, chunk: Map<Position, u32>, p: Position) -> (
    int,
    int,
)
    recommends
        chunk.contains_key(p),
        dict.contains_key(chunk[p]),
{
    (dict[chunk[p]].uv[0] as int, dict[chunk[p]].uv[1] as int)
}

/// The position a face of the block at `pos` looks out onto.
pub open spec fn face_neighbor(pos: Position, side: Side) -> Position {
    match side {
        Side::TOP => off(pos, 0, 1, 0),
        Side::BOTTOM => off(pos, 0, -1, 0),
        Side::FRONT => off(pos, 0, 0, 1),
        Side::BACK => off(pos, 0, 0, -1),
        Side::RIGHT => off(pos, 1, 0, 0),
        Side::LEFT => off(pos, -1, 0, 0),
    }
}

/// The four packed vertices of one face of the cube at `p`, in emission
/// order.
#[verifier::opaque]
pub open spec fn face_vertices(
    dict: Map<u32, Block>,
    chunk: Map<Position, u32>,
    p: Position,
    side: Side,
) -> Seq<Vertex> {
    let x = p.0 as int;
    let y = p.1 as int;
    let z = p.2 as int;
    let u = block_uv(dict, chunk, p).0;
    let v = block_uv(dict, chunk, p).1;
    match side {
        Side::TOP => seq![
            Vertex { data: pack_vertex(x, y + 1, z + 1, u, v, ao_level(dict, chunk, off(p, -1, 0, 0), off(p, 0, 0, 1), off(p, -1, 0, 1))) },
            Vertex { data: pack_vertex(x + 1, y + 1, z + 1, u + 1, v, ao_level(dict, chunk, off(p, 1, 0, 0), off(p, 0, 0, 1), off(p, 1, 0, 1))) },
            Vertex { data: pack_vertex(x, y + 1, z, u, v + 1, ao_level(dict, chunk, off(p, 0, 0, -1), off(p, -1, 0, 0), off(p, -1, 0, -1))) },
            Vertex { data: pack_vertex(x + 1, y + 1, z, u + 1, v + 1, ao_level(dict, chunk, off(p, 1, 0, 0), off(p, 0, 0, -1), off(p, 1, 0, -1))) },
        ],
        Side::BOTTOM => seq![
            Vertex { data: pack_vertex(x, y, z + 1, u, v, ao_level(dict, chunk, off(p, -1, -2, 0), off(p, 0, -2, 1), off(p, -1, -2, 1))) },
            Vertex { data: pack_vertex(x + 1, y, z + 1, u + 1, v, ao_level(dict, chunk, off(p, 1, -2, 0), off(p, 0, -2, 1), off(p, 1, -2, 1))) },
            Vertex { data: pack_vertex(x, y, z, u, v + 1, ao_level(dict, chunk, off(p, -1, -2, 0), off(p, 0, -2, -1), off(p, -1, -2, -1))) },
            Vertex { data: pack_vertex(x + 1, y, z, u + 1, v + 1, ao_level(dict, chunk, off(p, 1, -2, 0), off(p, 0, -2, -1), off(p, 1, -2, -1))) },
        ],
        Side::FRONT => seq![
            Vertex { data: pack_vertex(x, y, z + 1, u, v, ao_level(dict, chunk, off(p, -1, -1, 1), off(p, 0, -2, 1), off(p, -1, -2, 1))) },
            Vertex { data: pack_vertex(x + 1, y, z + 1, u + 1, v, ao_level(dict, chunk, off(p, 1, -1, 1), off(p, 0, -2, 1), off(p, 1, -2, 1))) },
            Vertex { data: pack_vertex(x, y + 1, z + 1, u, v + 1, ao_level(dict, chunk, off(p, 0, 0, 1), off(p, -1, -1, 1), off(p, -1, 0, 1))) },
            Vertex { data: pack_vertex(x + 1, y + 1, z + 1, u + 1, v + 1, ao_level(dict, chunk, off(p, 0, 0, 1), off(p, 1, -1, 1), off(p, 1, 0, 1))) },
        ],
        Side::BACK => seq![
            Vertex { data: pack_vertex(x, y, z, u, v, ao_level(dict, chunk, off(p, -1, -1, -1), off(p, 0, -2, -1), off(p, -1, -2, -1))) },
            Vertex { data: pack_vertex(x + 1, y, z, u + 1, v, ao_level(dict, chunk, off(p, 1, -1, -1), off(p, 0, -2, -1), off(p, 1, -2, -1))) },
            Vertex { data: pack_vertex(x, y + 1, z, u, v + 1, ao_level(dict, chunk, off(p, 0, 0, -1), off(p, -1, -1, -1), off(p, -1, 0, -1))) },
            Vertex { data: pack_vertex(x + 1, y + 1, z, u + 1, v + 1, ao_level(dict, chunk, off(p, 0, 0, -1), off(p, 1, -1, -1), off(p, 1, 0, -1))) },
        ],
        Side::RIGHT => seq![
            Vertex { data: pack_vertex(x + 1, y, z + 1, u, v, ao_level(dict, chunk, off(p, 1, -1, 1), off(p, 1, -2, 0), off(p, 1, -2, 1))) },
            Vertex { data: pack_vertex(x + 1, y + 1, z + 1, u + 1, v, ao_level(dict, chunk, off(p, 1, 0, 1), off(p, 1, 0, 0), off(p, 1, -1, 1))) },
            Vertex { data: pack_vertex(x + 1, y, z, u, v + 1, ao_level(dict, chunk, off(p, 1, -1, -1), off(p, 1, -2, 0), off(p, 1, -2, -1))) },
            Vertex { data: pack_vertex(x + 1, y + 1, z, u + 1, v + 1, ao_level(dict, chunk, off(p, 1, 0, -1), off(p, 1, 0, 0), off(p, 1, -1, -1))) },
        ],
        Side::LEFT => seq![
            Vertex { data: pack_vertex(x, y, z + 1, u, v, ao_level(dict, chunk, off(p, -1, -1, 1), off(p, -1, -2, 0), off(p, -1, -2, 1))) },
            Vertex { data: pack_vertex(x, y + 1, z + 1, u + 1, v, ao_level(dict, chunk, off(p, -1, 0, 1), off(p, -1, 0, 0), off(p, -1, -1, 1))) },
            Vertex { data: pack_vertex(x, y, z, u, v + 1, ao_level(dict, chunk, off(p, -1, -1, -1), off(p, -1, -2, 0), off(p, -1, -2, -1))) },
            Vertex { data: pack_vertex(x, y + 1, z, u + 1, v + 1, ao_level(dict, chunk, off(p, -1, 0, -1), off(p, -1, 0, 0), off(p, -1, -1, -1))) },
        ],
    }
}

/// The six indices of one face: two triangles over the four vertices just
/// emitted, wound front-facing outward, with a fixed table per face.
#[verifier::opaque]
pub open spec fn face_indices(side: Side, base: int) -> Seq<u16> {
    let b = (base as u16) as u32;
    match side {
        Side::TOP => seq![
            (b + 0) as u16,
            (b + 3) as u16,
            (b + 2) as u16,
            (b + 0) as u16,
            (b + 1) as u16,
            (b + 3) as u16,
        ],
        Side::BOTTOM => seq![
            (b + 0) as u16,
            (b + 2) as u16,
            (b + 3) as u16,
            (b + 0) as u16,
            (b + 3) as u16,
            (b + 1) as u16,
        ],
        Side::FRONT => seq![
            (b + 0) as u16,
            (b + 3) as u16,
            (b + 2) as u16,
            (b + 0) as u16,
            (b + 1) as u16,
            (b + 3) as u16,
        ],
        Side::BACK => seq![
            (b + 0) as u16,
            (b + 2) as u16,
            (b + 3) as u16,
            (b + 0) as u16,
            (b + 3) as u16,
            (b + 1) as u16,
        ],
        Side::RIGHT => seq![
            (b + 0) as u16,
            (b + 3) as u16,
            (b + 1) as u16,
            (b + 0) as u16,
            (b + 2) as u16,
            (b + 3) as u16,
        ],
        Side::LEFT => seq![
            (b + 0) as u16,
            (b + 1) as u16,
            (b + 3) as u16,
            (b + 0) as u16,
            (b + 3) as u16,
            (b + 2) as u16,
        ],
    }
}


/// Whether the face of the block at `pos` toward `side` is emitted: exactly
/// when the position it looks out on is transparent. A face between two
/// opaque blocks, or two transparent ones, is never emitted.
pub open spec fn emits_face(
    dict: Map<u32, Block>,
    chunk: Map<Position, u32>,
    pos: Position,
    side: Side,
) -> bool {
    transparent_at(dict, chunk, face_neighbor(pos, side))
}

/// All vertices a cube block emits, face by face in a fixed face order.
pub open spec fn cube_vertices(dict: Map<u32, Block>, chunk: Map<Position, u32>, p: Position)
    -> Seq<Vertex> {
    (if emits_face(dict, chunk, p, Side::TOP) {
        face_vertices(dict, chunk, p, Side::TOP)
    } else {
        Seq::empty()
    }) + (if emits_face(dict, chunk, p, Side::BOTTOM) {
        face_vertices(dict, chunk, p, Side::BOTTOM)
    } else {
        Seq::empty()
    }) + (if emits_face(dict, chunk, p, Side::FRONT) {
        face_vertices(dict, chunk, p, Side::FRONT)
    } else {
        Seq::empty()
    }) + (if emits_face(dict, chunk, p, Side::BACK) {
        face_vertices(dict, chunk, p, Side::BACK)
    } else {
        Seq::empty()
    }) + (if emits_face(dict, chunk, p, Side::RIGHT) {
        face_vertices(dict, chunk, p, Side::RIGHT)
    } else {
        Seq::empty()
    }) + (if emits_face(dict, chunk, p, Side::LEFT) {
        face_vertices(dict, chunk, p, Side::LEFT)
    } else {
        Seq::empty()
    })
}

/// All indices a cube block emits, each face based at the vertices it
/// appended on top of `base`.
pub open spec fn cube_indices(
    dict: Map<u32, Block>,
    chunk: Map<Position, u32>,
    p: Position,
    base: int,
) -> Seq<u16> {
    let n0: int = base + (if emits_face(dict, chunk, p, Side::TOP) {
        4int
    } else {
        0int
    });
    let n1: int = n0 + (if emits_face(dict, chunk, p, Side::BOTTOM) {
        4int
    } else {
        0int
    });
    let n2: int = n1 + (if emits_face(dict, chunk, p, Side::FRONT) {
        4int
    } else {
        0int
    });
    let n3: int = n2 + (if emits_face(dict, chunk, p, Side::BACK) {
        4int
    } else {
        0int
    });
    let n4: int = n3 + (if emits_face(dict, chunk, p, Side::RIGHT) {
        4int
    } else {
        0int
    });
    (if emits_face(dict, chunk, p, Side::TOP) {
        face_indices(Side::TOP, base)
    } else {
        Seq::empty()
    }) + (if emits_face(dict, chunk, p, Side::BOTTOM) {
        face_indices(Side::BOTTOM, n0)
    } else {
        Seq::empty()
    }) + (if emits_face(dict, chunk, p, Side::FRONT) {
        face_indices(Side::FRONT, n1)
    } else {
        Seq::empty()
    }) + (if emits_face(dict, chunk, p, Side::BACK) {
        face_indices(Side::BACK, n2)
    } else {
        Seq::empty()
    }) + (if emits_face(dict, chunk, p, Side::RIGHT) {
        face_indices(Side::RIGHT, n3)
    } else {
        Seq::empty()
    }) + (if emits_face(dict, chunk, p, Side::LEFT) {
        face_indices(Side::LEFT, n4)
    } else {
        Seq::empty()
    })
}

/// In a chunk that holds an opaque block at every in-bounds position, an
/// emitted face always looks out on the halo: no face between two in-bounds
/// blocks survives culling.
pub proof fn lemma_solid_chunk_faces(
    dict: Map<u32, Block>,
    chunk: Map<Position, u32>,
    depth: int,
    p: Position,
    side: Side,
)
    requires
        forall|q: Position|
            crate::chunk::culling::in_chunk(depth, q) ==> chunk.contains_key(q)
                && dict.contains_key(#[trigger] chunk[q]) && !dict[chunk[q]].transparent,
        emits_face(dict, chunk, p, side),
    ensures
        !crate::chunk::culling::in_chunk(depth, face_neighbor(p, side)),
{
    let q = face_neighbor(p, side);
    if crate::chunk::culling::in_chunk(depth, q) {
        assert(chunk.contains_key(q) && dict.contains_key(chunk[q]) && !dict[chunk[q]].transparent);
        assert(!transparent_at(dict, chunk, q));
    }
}

fn top_face(
    chunk: &ChunkData,
    chunk_config: &ChunkConfig,
    position: &Position,
    uv: &[u32; 2],
    vertices: &mut Vec<Vertex>,
    indices: &mut Vec<u16>,
)
    requires
        chunk.wf(),
        chunk_config.wf(),
        crate::chunk::culling::in_chunk(chunk_config.depth as int, *position),
        uv[0] as int == block_uv(chunk_config.dict@, chunk@, *position).0,
        uv[1] as int == block_uv(chunk_config.dict@, chunk@, *position).1,
    ensures
        final(vertices)@ == old(vertices)@ + face_vertices(
            chunk_config.dict@,
            chunk@,
            *position,
            Side::TOP,
        ),
        final(indices)@ == old(indices)@ + face_indices(Side::TOP, old(vertices)@.len() as int),
{
    let x = position.0;
    let y = position.1;
    let z = position.2;
    let u: u32 = uv[0] % 16;
    let v: u32 = uv[1] % 16;

    let last_index: u16 = #[verifier::truncate] (vertices.len() as u16);
    let lb: u32 = last_index as u32;
    indices.push(#[verifier::truncate] ((lb + 0) as u16));
    indices.push(#[verifier::truncate] ((lb + 3) as u16));
    indices.push(#[verifier::truncate] ((lb + 2) as u16));
    indices.push(#[verifier::truncate] ((lb + 0) as u16));
    indices.push(#[verifier::truncate] ((lb + 1) as u16));
    indices.push(#[verifier::truncate] ((lb + 3) as u16));
    let a0 = ao(chunk, chunk_config, &(x - 1, y, z), &(x, y, z + 1), &(x - 1, y, z + 1));
    vertices.push(Vertex::from([x as u32, (y + 1) as u32, (z + 1) as u32], [u, v], a0));
    let a1 = ao(chunk, chunk_config, &(x + 1, y, z), &(x, y, z + 1), &(x + 1, y, z + 1));
    vertices.push(Vertex::from([(x + 1) as u32, (y + 1) as u32, (z + 1) as u32], [u + 1, v], a1));
    let a2 = ao(chunk, chunk_config, &(x, y, z - 1), &(x - 1, y, z), &(x - 1, y, z - 1));
    vertices.push(Vertex::from([x as u32, (y + 1) as u32, z as u32], [u, v + 1], a2));
    let a3 = ao(chunk, chunk_config, &(x + 1, y, z), &(x, y, z - 1), &(x + 1, y, z - 1));
    vertices.push(Vertex::from([(x + 1) as u32, (y + 1) as u32, z as u32], [u + 1, v + 1], a3));
    proof {
        reveal(face_vertices);
        reveal(face_indices);
        vstd::arithmetic::div_mod::lemma_add_mod_noop(uv[0] as int, 1, 16);
        vstd::arithmetic::div_mod::lemma_add_mod_noop(uv[1] as int, 1, 16);
        vstd::arithmetic::div_mod::lemma_mod_twice(uv[0] as int, 16);
        vstd::arithmetic::div_mod::lemma_mod_twice(uv[1] as int, 16);
        assert(vertices@ =~= old(vertices)@ + face_vertices(
            chunk_config.dict@,
            chunk@,
            *position,
            Side::TOP,
        ));
        assert(indices@ =~= old(indices)@ + face_indices(
            Side::TOP,
            old(vertices)@.len() as int,
        ));
    }
}

fn bottom_face(
    chunk: &ChunkData,
    chunk_config: &ChunkConfig,
    position: &Position,
    uv: &[u32; 2],
    vertices: &mut Vec<Vertex>,
    indices: &mut Vec<u16>,
)
    requires
        chunk.wf(),
        chunk_config.wf(),
        crate::chunk::culling::in_chunk(chunk_config.depth as int, *position),
        uv[0] as int == block_uv(chunk_config.dict@, chunk@, *position).0,
        uv[1] as int == block_uv(chunk_config.dict@, chunk@, *position).1,
    ensures
        final(vertices)@ == old(vertices)@ + face_vertices(
            chunk_config.dict@,
            chunk@,
            *position,
            Side::BOTTOM,
        ),
        final(indices)@ == old(indices)@ + face_indices(Side::BOTTOM, old(vertices)@.len() as int),
{
    let x = position.0;
    let y = position.1;
    let z = position.2;
    let u: u32 = uv[0] % 16;
    let v: u32 = uv[1] % 16;

    let last_index: u16 = #[verifier::truncate] (vertices.len() as u16);
    let lb: u32 = last_index as u32;
    indices.push(#[verifier::truncate] ((lb + 0) as u16));
    indices.push(#[verifier::truncate] ((lb + 2) as u16));
    indices.push(#[verifier::truncate] ((lb + 3) as u16));
    indices.push(#[verifier::truncate] ((lb + 0) as u16));
    indices.push(#[verifier::truncate] ((lb + 3) as u16));
    indices.push(#[verifier::truncate] ((lb + 1) as u16));
    let a0 = ao(chunk, chunk_config, &(x - 1, y - 2, z), &(x, y - 2, z + 1), &(x - 1, y - 2, z + 1));
    vertices.push(Vertex::from([x as u32, y as u32, (z + 1) as u32], [u, v], a0));
    let a1 = ao(chunk, chunk_config, &(x + 1, y - 2, z), &(x, y - 2, z + 1), &(x + 1, y - 2, z + 1));
    vertices.push(Vertex::from([(x + 1) as u32, y as u32, (z + 1) as u32], [u + 1, v], a1));
    let a2 = ao(chunk, chunk_config, &(x - 1, y - 2, z), &(x, y - 2, z - 1), &(x - 1, y - 2, z - 1));
    vertices.push(Vertex::from([x as u32, y as u32, z as u32], [u, v + 1], a2));
    let a3 = ao(chunk, chunk_config, &(x + 1, y - 2, z), &(x, y - 2, z - 1), &(x + 1, y - 2, z - 1));
    vertices.push(Vertex::from([(x + 1) as u32, y as u32, z as u32], [u + 1, v + 1], a3));
    proof {
        reveal(face_vertices);
        reveal(face_indices);
        vstd::arithmetic::div_mod::lemma_add_mod_noop(uv[0] as int, 1, 16);
        vstd::arithmetic::div_mod::lemma_add_mod_noop(uv[1] as int, 1, 16);
        vstd::arithmetic::div_mod::lemma_mod_twice(uv[0] as int, 16);
        vstd::arithmetic::div_mod::lemma_mod_twice(uv[1] as int, 16);
        assert(vertices@ =~= old(vertices)@ + face_vertices(
            chunk_config.dict@,
            chunk@,
            *position,
            Side::BOTTOM,
        ));
        assert(indices@ =~= old(indices)@ + face_indices(
            Side::BOTTOM,
            old(vertices)@.len() as int,
        ));
    }
}

fn front_face(
    chunk: &ChunkData,
    chunk_config: &ChunkConfig,
    position: &Position,
    uv: &[u32; 2],
    vertices: &mut Vec<Vertex>,
    indices: &mut Vec<u16>,
)
    requires
        chunk.wf(),
        chunk_config.wf(),
        crate::chunk::culling::in_chunk(chunk_config.depth as int, *position),
        uv[0] as int == block_uv(chunk_config.dict@, chunk@, *position).0,
        uv[1] as int == block_uv(chunk_config.dict@, chunk@, *position).1,
    ensures
        final(vertices)@ == old(vertices)@ + face_vertices(
            chunk_config.dict@,
            chunk@,
            *position,
            Side::FRONT,
        ),
        final(indices)@ == old(indices)@ + face_indices(Side::FRONT, old(vertices)@.len() as int),
{
    let x = position.0;
    let y = position.1;
    let z = position.2;
    let u: u32 = uv[0] % 16;
    let v: u32 = uv[1] % 16;

    let last_index: u16 = #[verifier::truncate] (vertices.len() as u16);
    let lb: u32 = last_index as u32;
    indices.push(#[verifier::truncate] ((lb + 0) as u16));
    indices.push(#[verifier::truncate] ((lb + 3) as u16));
    indices.push(#[verifier::truncate] ((lb + 2) as u16));
    indices.push(#[verifier::truncate] ((lb + 0) as u16));
    indices.push(#[verifier::truncate] ((lb + 1) as u16));
    indices.push(#[verifier::truncate] ((lb + 3) as u16));
    let a0 = ao(chunk, chunk_config, &(x - 1, y - 1, z + 1), &(x, y - 2, z + 1), &(x - 1, y - 2, z + 1));
    vertices.push(Vertex::from([x as u32, y as u32, (z + 1) as u32], [u, v], a0));
    let a1 = ao(chunk, chunk_config, &(x + 1, y - 1, z + 1), &(x, y - 2, z + 1), &(x + 1, y - 2, z + 1));
    vertices.push(Vertex::from([(x + 1) as u32, y as u32, (z + 1) as u32], [u + 1, v], a1));
    let a2 = ao(chunk, chunk_config, &(x, y, z + 1), &(x - 1, y - 1, z + 1), &(x - 1, y, z + 1));
    vertices.push(Vertex::from([x as u32, (y + 1) as u32, (z + 1) as u32], [u, v + 1], a2));
    let a3 = ao(chunk, chunk_config, &(x, y, z + 1), &(x + 1, y - 1, z + 1), &(x + 1, y, z + 1));
    vertices.push(Vertex::from([(x + 1) as u32, (y + 1) as u32, (z + 1) as u32], [u + 1, v + 1], a3));
    proof {
        reveal(face_vertices);
        reveal(face_indices);
        vstd::arithmetic::div_mod::lemma_add_mod_noop(uv[0] as int, 1, 16);
        vstd::arithmetic::div_mod::lemma_add_mod_noop(uv[1] as int, 1, 16);
        vstd::arithmetic::div_mod::lemma_mod_twice(uv[0] as int, 16);
        vstd::arithmetic::div_mod::lemma_mod_twice(uv[1] as int, 16);
        assert(vertices@ =~= old(vertices)@ + face_vertices(
            chunk_config.dict@,
            chunk@,
            *position,
            Side::FRONT,
        ));
        assert(indices@ =~= old(indices)@ + face_indices(
            Side::FRONT,
            old(vertices)@.len() as int,
        ));
    }
}

fn back_face(
    chunk: &ChunkData,
    chunk_config: &ChunkConfig,
    position: &Position,
    uv: &[u32; 2],
    vertices: &mut Vec<Vertex>,
    indices: &mut Vec<u16>,
)
    requires
        chunk.wf(),
        chunk_config.wf(),
        crate::chunk::culling::in_chunk(chunk_config.depth as int, *position),
        uv[0] as int == block_uv(chunk_config.dict@, chunk@, *position).0,
        uv[1] as int == block_uv(chunk_config.dict@, chunk@, *position).1,
    ensures
        final(vertices)@ == old(vertices)@ + face_vertices(
            chunk_config.dict@,
            chunk@,
            *position,
            Side::BACK,
        ),
        final(indices)@ == old(indices)@ + face_indices(Side::BACK, old(vertices)@.len() as int),
{
    let x = position.0;
    let y = position.1;
    let z = position.2;
    let u: u32 = uv[0] % 16;
    let v: u32 = uv[1] % 16;

    let last_index: u16 = #[verifier::truncate] (vertices.len() as u16);
    let lb: u32 = last_index as u32;
    indices.push(#[verifier::truncate] ((lb + 0) as u16));
    indices.push(#[verifier::truncate] ((lb + 2) as u16));
    indices.push(#[verifier::truncate] ((lb + 3) as u16));
    indices.push(#[verifier::truncate] ((lb + 0) as u16));
    indices.push(#[verifier::truncate] ((lb + 3) as u16));
    indices.push(#[verifier::truncate] ((lb + 1) as u16));
    let a0 = ao(chunk, chunk_config, &(x - 1, y - 1, z - 1), &(x, y - 2, z - 1), &(x - 1, y - 2, z - 1));
    vertices.push(Vertex::from([x as u32, y as u32, z as u32], [u, v], a0));
    let a1 = ao(chunk, chunk_config, &(x + 1, y - 1, z - 1), &(x, y - 2, z - 1), &(x + 1, y - 2, z - 1));
    vertices.push(Vertex::from([(x + 1) as u32, y as u32, z as u32], [u + 1, v], a1));
    let a2 = ao(chunk, chunk_config, &(x, y, z - 1), &(x - 1, y - 1, z - 1), &(x - 1, y, z - 1));
    vertices.push(Vertex::from([x as u32, (y + 1) as u32, z as u32], [u, v + 1], a2));
    let a3 = ao(chunk, chunk_config, &(x, y, z - 1), &(x + 1, y - 1, z - 1), &(x + 1, y, z - 1));
    vertices.push(Vertex::from([(x + 1) as u32, (y + 1) as u32, z as u32], [u + 1, v + 1], a3));
    proof {
        reveal(face_vertices);
        reveal(face_indices);
        vstd::arithmetic::div_mod::lemma_add_mod_noop(uv[0] as int, 1, 16);
        vstd::arithmetic::div_mod::lemma_add_mod_noop(uv[1] as int, 1, 16);
        vstd::arithmetic::div_mod::lemma_mod_twice(uv[0] as int, 16);
        vstd::arithmetic::div_mod::lemma_mod_twice(uv[1] as int, 16);
        assert(vertices@ =~= old(vertices)@ + face_vertices(
            chunk_config.dict@,
            chunk@,
            *position,
            Side::BACK,
        ));
        assert(indices@ =~= old(indices)@ + face_indices(
            Side::BACK,
            old(vertices)@.len() as int,
        ));
    }
}

fn right_face(
    chunk: &ChunkData,
    chunk_config: &ChunkConfig,
    position: &Position,
    uv: &[u32; 2],
    vertices: &mut Vec<Vertex>,
    indices: &mut Vec<u16>,
)
    requires
        chunk.wf(),
        chunk_config.wf(),
        crate::chunk::culling::in_chunk(chunk_config.depth as int, *position),
        uv[0] as int == block_uv(chunk_config.dict@, chunk@, *position).0,
        uv[1] as int == block_uv(chunk_config.dict@, chunk@, *position).1,
    ensures
        final(vertices)@ == old(vertices)@ + face_vertices(
            chunk_config.dict@,
            chunk@,
            *position,
            Side::RIGHT,
        ),
        final(indices)@ == old(indices)@ + face_indices(Side::RIGHT, old(vertices)@.len() as int),
{
    let x = position.0;
    let y = position.1;
    let z = position.2;
    let u: u32 = uv[0] % 16;
    let v: u32 = uv[1] % 16;

    let last_index: u16 = #[verifier::truncate] (vertices.len() as u16);
    let lb: u32 = last_index as u32;
    indices.push(#[verifier::truncate] ((lb + 0) as u16));
    indices.push(#[verifier::truncate] ((lb + 3) as u16));
    indices.push(#[verifier::truncate] ((lb + 1) as u16));
    indices.push(#[verifier::truncate] ((lb + 0) as u16));
    indices.push(#[verifier::truncate] ((lb + 2) as u16));
    indices.push(#[verifier::truncate] ((lb + 3) as u16));
    let a0 = ao(chunk, chunk_config, &(x + 1, y - 1, z + 1), &(x + 1, y - 2, z), &(x + 1, y - 2, z + 1));
    vertices.push(Vertex::from([(x + 1) as u32, y as u32, (z + 1) as u32], [u, v], a0));
    let a1 = ao(chunk, chunk_config, &(x + 1, y, z + 1), &(x + 1, y, z), &(x + 1, y - 1, z + 1));
    vertices.push(Vertex::from([(x + 1) as u32, (y + 1) as u32, (z + 1) as u32], [u + 1, v], a1));
    let a2 = ao(chunk, chunk_config, &(x + 1, y - 1, z - 1), &(x + 1, y - 2, z), &(x + 1, y - 2, z - 1));
    vertices.push(Vertex::from([(x + 1) as u32, y as u32, z as u32], [u, v + 1], a2));
    let a3 = ao(chunk, chunk_config, &(x + 1, y, z - 1), &(x + 1, y, z), &(x + 1, y - 1, z - 1));
    vertices.push(Vertex::from([(x + 1) as u32, (y + 1) as u32, z as u32], [u + 1, v + 1], a3));
    proof {
        reveal(face_vertices);
        reveal(face_indices);
        vstd::arithmetic::div_mod::lemma_add_mod_noop(uv[0] as int, 1, 16);
        vstd::arithmetic::div_mod::lemma_add_mod_noop(uv[1] as int, 1, 16);
        vstd::arithmetic::div_mod::lemma_mod_twice(uv[0] as int, 16);
        vstd::arithmetic::div_mod::lemma_mod_twice(uv[1] as int, 16);
        assert(vertices@ =~= old(vertices)@ + face_vertices(
            chunk_config.dict@,
            chunk@,
            *position,
            Side::RIGHT,
        ));
        assert(indices@ =~= old(indices)@ + face_indices(
            Side::RIGHT,
            old(vertices)@.len() as int,
        ));
    }
}

fn left_face(
    chunk: &ChunkData,
    chunk_config: &ChunkConfig,
    position: &Position,
    uv: &[u32; 2],
    vertices: &mut Vec<Vertex>,
    indices: &mut Vec<u16>,
)
    requires
        chunk.wf(),
        chunk_config.wf(),
        crate::chunk::culling::in_chunk(chunk_config.depth as int, *position),
        uv[0] as int == block_uv(chunk_config.dict@, chunk@, *position).0,
        uv[1] as int == block_uv(chunk_config.dict@, chunk@, *position).1,
    ensures
        final(vertices)@ == old(vertices)@ + face_vertices(
            chunk_config.dict@,
            chunk@,
            *position,
            Side::LEFT,
        ),
        final(indices)@ == old(indices)@ + face_indices(Side::LEFT, old(vertices)@.len() as int),
{
    let x = position.0;
    let y = position.1;
    let z = position.2;
    let u: u32 = uv[0] % 16;
    let v: u32 = uv[1] % 16;

    let last_index: u16 = #[verifier::truncate] (vertices.len() as u16);
    let lb: u32 = last_index as u32;
    indices.push(#[verifier::truncate] ((lb + 0) as u16));
    indices.push(#[verifier::truncate] ((lb + 1) as u16));
    indices.push(#[verifier::truncate] ((lb + 3) as u16));
    indices.push(#[verifier::truncate] ((lb + 0) as u16));
    indices.push(#[verifier::truncate] ((lb + 3) as u16));
    indices.push(#[verifier::truncate] ((lb + 2) as u16));
    let a0 = ao(chunk, chunk_config, &(x - 1, y - 1, z + 1), &(x - 1, y - 2, z), &(x - 1, y - 2, z + 1));
    vertices.push(Vertex::from([x as u32, y as u32, (z + 1) as u32], [u, v], a0));
    let a1 = ao(chunk, chunk_config, &(x - 1, y, z + 1), &(x - 1, y, z), &(x - 1, y - 1, z + 1));
    vertices.push(Vertex::from([x as u32, (y + 1) as u32, (z + 1) as u32], [u + 1, v], a1));
    let a2 = ao(chunk, chunk_config, &(x - 1, y - 1, z - 1), &(x - 1, y - 2, z), &(x - 1, y - 2, z - 1));
    vertices.push(Vertex::from([x as u32, y as u32, z as u32], [u, v + 1], a2));
    let a3 = ao(chunk, chunk_config, &(x - 1, y, z - 1), &(x - 1, y, z), &(x - 1, y - 1, z - 1));
    vertices.push(Vertex::from([x as u32, (y + 1) as u32, z as u32], [u + 1, v + 1], a3));
    proof {
        reveal(face_vertices);
        reveal(face_indices);
        vstd::arithmetic::div_mod::lemma_add_mod_noop(uv[0] as int, 1, 16);
        vstd::arithmetic::div_mod::lemma_add_mod_noop(uv[1] as int, 1, 16);
        vstd::arithmetic::div_mod::lemma_mod_twice(uv[0] as int, 16);
        vstd::arithmetic::div_mod::lemma_mod_twice(uv[1] as int, 16);
        assert(vertices@ =~= old(vertices)@ + face_vertices(
            chunk_config.dict@,
            chunk@,
            *position,
            Side::LEFT,
        ));
        assert(indices@ =~= old(indices)@ + face_indices(
            Side::LEFT,
            old(vertices)@.len() as int,
        ));
    }
}

/// Every face contributes exactly four vertices and six indices.
pub proof fn lemma_face_lens(
    dict: Map<u32, Block>,
    chunk: Map<Position, u32>,
    p: Position,
    side: Side,
    base: int,
)
    ensures
        face_vertices(dict, chunk, p, side).len() == 4,
        face_indices(side, base).len() == 6,
{
    reveal(face_vertices);
    reveal(face_indices);
}

/// Within the index format's capacity, a face's six indices point exactly
/// at the four vertices that start at `base`.
pub proof fn lemma_face_indices_range(side: Side, base: int)
    requires
        0 <= base,
        base + 4 <= 0x1_0000,
    ensures
        face_indices(side, base).len() == 6,
        forall|j: int|
            0 <= j < 6 ==> base <= (#[trigger] face_indices(side, base)[j]) < base + 4,
{
    reveal(face_indices);
}

/// Emits the visible faces of the cube block at `position` onto the output
/// buffers: one quad per face whose neighbor is transparent.
#[verifier::rlimit(100)]
pub fn cube_model(
    chunk: &ChunkData,
    chunk_config: &ChunkConfig,
    position: &Position,
    vertices: &mut Vec<Vertex>,
    indices: &mut Vec<u16>,
)
    requires
        chunk.wf(),
        chunk_config.wf(),
        chunk@.contains_key(*position),
        chunk_config.dict@.contains_key(chunk@[*position]),
        crate::chunk::culling::in_chunk(chunk_config.depth as int, *position),
    ensures
        final(vertices)@ == old(vertices)@ + cube_vertices(chunk_config.dict@, chunk@, *position),
        final(indices)@ == old(indices)@ + cube_indices(
            chunk_config.dict@,
            chunk@,
            *position,
            old(vertices)@.len() as int,
        ),
        // while the vertex buffer fits the index format, every appended
        // index points at one of this block's own new vertices
        old(vertices)@.len() + 24 <= 0x1_0000 ==> forall|k: int|
            old(indices)@.len() <= k < final(indices)@.len() ==> old(vertices)@.len() <= (
            #[trigger] final(indices)@[k]) < final(vertices)@.len(),
{
    let ghost dict_g = chunk_config.dict@;
    let ghost ch = chunk@;
    let ghost p = *position;
    let ghost base: int = old(vertices)@.len() as int;
    let ghost c_top: Seq<Vertex> = if emits_face(dict_g, ch, p, Side::TOP) {
        face_vertices(dict_g, ch, p, Side::TOP)
    } else {
        Seq::empty()
    };
    let ghost c_bottom: Seq<Vertex> = if emits_face(dict_g, ch, p, Side::BOTTOM) {
        face_vertices(dict_g, ch, p, Side::BOTTOM)
    } else {
        Seq::empty()
    };
    let ghost c_front: Seq<Vertex> = if emits_face(dict_g, ch, p, Side::FRONT) {
        face_vertices(dict_g, ch, p, Side::FRONT)
    } else {
        Seq::empty()
    };
    let ghost c_back: Seq<Vertex> = if emits_face(dict_g, ch, p, Side::BACK) {
        face_vertices(dict_g, ch, p, Side::BACK)
    } else {
        Seq::empty()
    };
    let ghost c_right: Seq<Vertex> = if emits_face(dict_g, ch, p, Side::RIGHT) {
        face_vertices(dict_g, ch, p, Side::RIGHT)
    } else {
        Seq::empty()
    };
    let ghost c_left: Seq<Vertex> = if emits_face(dict_g, ch, p, Side::LEFT) {
        face_vertices(dict_g, ch, p, Side::LEFT)
    } else {
        Seq::empty()
    };
    let ghost n0: int = base + (if emits_face(dict_g, ch, p, Side::TOP) {
        4int
    } else {
        0int
    });
    let ghost n1: int = n0 + (if emits_face(dict_g, ch, p, Side::BOTTOM) {
        4int
    } else {
        0int
    });
    let ghost n2: int = n1 + (if emits_face(dict_g, ch, p, Side::FRONT) {
        4int
    } else {
        0int
    });
    let ghost n3: int = n2 + (if emits_face(dict_g, ch, p, Side::BACK) {
        4int
    } else {
        0int
    });
    let ghost n4: int = n3 + (if emits_face(dict_g, ch, p, Side::RIGHT) {
        4int
    } else {
        0int
    });
    let ghost i_top: Seq<u16> = if emits_face(dict_g, ch, p, Side::TOP) {
        face_indices(Side::TOP, base)
    } else {
        Seq::empty()
    };
    let ghost i_bottom: Seq<u16> = if emits_face(dict_g, ch, p, Side::BOTTOM) {
        face_indices(Side::BOTTOM, n0)
    } else {
        Seq::empty()
    };
    let ghost i_front: Seq<u16> = if emits_face(dict_g, ch, p, Side::FRONT) {
        face_indices(Side::FRONT, n1)
    } else {
        Seq::empty()
    };
    let ghost i_back: Seq<u16> = if emits_face(dict_g, ch, p, Side::BACK) {
        face_indices(Side::BACK, n2)
    } else {
        Seq::empty()
    };
    let ghost i_right: Seq<u16> = if emits_face(dict_g, ch, p, Side::RIGHT) {
        face_indices(Side::RIGHT, n3)
    } else {
        Seq::empty()
    };
    let ghost i_left: Seq<u16> = if emits_face(dict_g, ch, p, Side::LEFT) {
        face_indices(Side::LEFT, n4)
    } else {
        Seq::empty()
    };

    let p0 = position.0;
    let p1 = position.1;
    let p2 = position.2;

    let block: u32 = match chunk.get(position) {
        Some(b) => *b,
        None => vstd::pervasive::unreached(),
    };
    let uv: [u32; 2] = match chunk_config.dict.get(block) {
        Some(b) => b.uv,
        None => vstd::pervasive::unreached(),
    };

    // surrounding transparency decides which faces survive
    let top_block = is_transparent(chunk, chunk_config, &(p0, p1 + 1, p2));
    let bottom_block = is_transparent(chunk, chunk_config, &(p0, p1 - 1, p2));
    let front_block = is_transparent(chunk, chunk_config, &(p0, p1, p2 + 1));
    let back_block = is_transparent(chunk, chunk_config, &(p0, p1, p2 - 1));
    let right_block = is_transparent(chunk, chunk_config, &(p0 + 1, p1, p2));
    let left_block = is_transparent(chunk, chunk_config, &(p0 - 1, p1, p2));
    proof {
        lemma_face_lens(dict_g, ch, p, Side::TOP, base);
        lemma_face_lens(dict_g, ch, p, Side::BOTTOM, n0);
        lemma_face_lens(dict_g, ch, p, Side::FRONT, n1);
        lemma_face_lens(dict_g, ch, p, Side::BACK, n2);
        lemma_face_lens(dict_g, ch, p, Side::RIGHT, n3);
        lemma_face_lens(dict_g, ch, p, Side::LEFT, n4);
        assert(top_block == emits_face(dict_g, ch, p, Side::TOP));
        assert(bottom_block == emits_face(dict_g, ch, p, Side::BOTTOM));
        assert(front_block == emits_face(dict_g, ch, p, Side::FRONT));
        assert(back_block == emits_face(dict_g, ch, p, Side::BACK));
        assert(right_block == emits_face(dict_g, ch, p, Side::RIGHT));
        assert(left_block == emits_face(dict_g, ch, p, Side::LEFT));
    }

    if top_block {
        top_face(chunk, chunk_config, position, &uv, vertices, indices);
    }
    proof {
        assert(vertices@ =~= old(vertices)@ + c_top);
        assert(indices@ =~= old(indices)@ + i_top);
        assert(vertices@.len() == n0);
    }
    if bottom_block {
        bottom_face(chunk, chunk_config, position, &uv, vertices, indices);
    }
    proof {
        assert(vertices@ =~= old(vertices)@ + c_top + c_bottom);
        assert(indices@ =~= old(indices)@ + i_top + i_bottom);
        assert(vertices@.len() == n1);
    }
    if front_block {
        front_face(chunk, chunk_config, position, &uv, vertices, indices);
    }
    proof {
        assert(vertices@ =~= old(vertices)@ + c_top + c_bottom + c_front);
        assert(indices@ =~= old(indices)@ + i_top + i_bottom + i_front);
        assert(vertices@.len() == n2);
    }
    if back_block {
        back_face(chunk, chunk_config, position, &uv, vertices, indices);
    }
    proof {
        assert(vertices@ =~= old(vertices)@ + c_top + c_bottom + c_front + c_back);
        assert(indices@ =~= old(indices)@ + i_top + i_bottom + i_front + i_back);
        assert(vertices@.len() == n3);
    }
    if right_block {
        right_face(chunk, chunk_config, position, &uv, vertices, indices);
    }
    proof {
        assert(vertices@ =~= old(vertices)@ + c_top + c_bottom + c_front + c_back + c_right);
        assert(indices@ =~= old(indices)@ + i_top + i_bottom + i_front + i_back + i_right);
        assert(vertices@.len() == n4);
    }
    if left_block {
        left_face(chunk, chunk_config, position, &uv, vertices, indices);
    }
    proof {
        assert(vertices@ =~= old(vertices)@ + c_top + c_bottom + c_front + c_back + c_right
            + c_left);
        assert(indices@ =~= old(indices)@ + i_top + i_bottom + i_front + i_back + i_right
            + i_left);
        assert(cube_vertices(dict_g, ch, p) == c_top + c_bottom + c_front + c_back + c_right
            + c_left);
        assert(cube_indices(dict_g, ch, p, base) == i_top + i_bottom + i_front + i_back + i_right
            + i_left);
        assert(vertices@ =~= old(vertices)@ + cube_vertices(dict_g, ch, p));
        assert(indices@ =~= old(indices)@ + cube_indices(dict_g, ch, p, base));
        if old(vertices)@.len() + 24 <= 0x1_0000 {
            let n5: int = n4 + (if emits_face(dict_g, ch, p, Side::LEFT) {
                4int
            } else {
                0int
            });
            assert(vertices@.len() == n5);
            assert forall|k: int|
                old(indices)@.len() <= k < indices@.len() implies old(vertices)@.len() <= (
            #[trigger] indices@[k]) < vertices@.len() by {
                let tail = indices@.subrange(old(indices)@.len() as int, indices@.len() as int);
                assert(tail =~= i_top + i_bottom + i_front + i_back + i_right + i_left);
                let off = k - old(indices)@.len();
                assert(indices@[k] == tail[off]);
                lemma_face_indices_range(Side::TOP, base);
                lemma_face_indices_range(Side::BOTTOM, n0);
                lemma_face_indices_range(Side::FRONT, n1);
                lemma_face_indices_range(Side::BACK, n2);
                lemma_face_indices_range(Side::RIGHT, n3);
                lemma_face_indices_range(Side::LEFT, n4);
                if off < i_top.len() {
                    assert(tail[off] == i_top[off]);
                } else if off < i_top.len() + i_bottom.len() {
                    assert(tail[off] == i_bottom[off - i_top.len()]);
                } else if off < i_top.len() + i_bottom.len() + i_front.len() {
                    assert(tail[off] == i_front[off - i_top.len() - i_bottom.len()]);
                } else if off < i_top.len() + i_bottom.len() + i_front.len() + i_back.len() {
                    assert(tail[off] == i_back[off - i_top.len() - i_bottom.len()
                        - i_front.len()]);
                } else if off < i_top.len() + i_bottom.len() + i_front.len() + i_back.len()
                    + i_right.len() {
                    assert(tail[off] == i_right[off - i_top.len() - i_bottom.len() - i_front.len()
                        - i_back.len()]);
                } else {
                    assert(tail[off] == i_left[off - i_top.len() - i_bottom.len() - i_front.len()
                        - i_back.len() - i_right.len()]);
                }
            }
        }
    }
}

} // verus!
