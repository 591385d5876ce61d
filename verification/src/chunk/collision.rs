//! Collision-shape extraction: the opaque blocks of a chunk as a compound
//! of unit boxes, placed at the chunk's world offset.
//!
//! The physics collaborator consumes this as its collider-build input; it
//! only needs the box offsets and the chunk translation, both plain
//! integers here.

use vstd::prelude::*;

verus! {

use crate::chunk::block::Block;
use crate::chunk::{ChunkConfig, ChunkData, Position};
use vstd::arithmetic::div_mod::lemma_fundamental_div_mod_converse;

/// Whether the chunk holds a registered, opaque block at `p`.
pub open spec fn opaque_at(dict: Map<u32, Block>, chunk: Map<Position, u32>, p: Position) -> bool {
    &&& chunk.contains_key(p)
    &&& dict.contains_key(chunk[p])
    &&& !dict[chunk[p]].transparent
}

/// The in-bounds position with flattened cube index `n`, scanning x-major,
/// then y, then z.
pub open spec fn cube_pos(depth: int, n: int) -> Position {
    ((n / (depth * depth)) as i32, ((n / depth) % depth) as i32, (n % depth) as i32)
}

/// The opaque in-bounds positions among the first `n` cube cells, in scan
/// order.
pub open spec fn opaque_prefix(
    dict: Map<u32, Block>,
    chunk: Map<Position, u32>,
    depth: int,
    n: int,
) -> Seq<Position>
    decreases n,
{
    if n <= 0 {
        Seq::empty()
    } else {
        opaque_prefix(dict, chunk, depth, n - 1) + (if opaque_at(dict, chunk, cube_pos(depth, n - 1)) {
            seq![cube_pos(depth, n - 1)]
        } else {
            Seq::empty()
        })
    }
}

/// All opaque in-bounds positions of the chunk, in scan order.
pub open spec fn opaque_blocks(dict: Map<u32, Block>, chunk: Map<Position, u32>, depth: int) -> Seq<
    Position,
> {
    opaque_prefix(dict, chunk, depth, depth * depth * depth)
}

/// The collision shape of a chunk: one unit box per opaque block, the whole
/// compound translated to the chunk's world offset. A chunk without opaque
/// blocks yields a degenerate placeholder so that every loaded chunk still
/// has exactly one collider entry.
pub enum Collider {
    /// A small stand-in shape for a chunk with no opaque blocks.
    Placeholder,
    /// One unit box per listed block-local offset, all translated by the
    /// chunk's world offset.
    Compound { translation: Position, blocks: Vec<Position> },
}

/// The flattened index of an in-bounds position decomposes back into it.
proof fn lemma_cube_pos(depth: int, x: int, y: int, z: int)
    requires
        1 <= depth,
        0 <= x < depth,
        0 <= y < depth,
        0 <= z < depth,
    ensures
        cube_pos(depth, (x * depth + y) * depth + z) == ((x as i32, y as i32, z as i32)),
{
    let n = (x * depth + y) * depth + z;
    let hi = x * depth + y;
    assert(0 <= hi < depth * depth && n == hi * depth + z) by (nonlinear_arith)
        requires
            hi == x * depth + y,
            n == hi * depth + z,
            1 <= depth,
            0 <= x < depth,
            0 <= y < depth,
            0 <= z < depth,
    ;
    lemma_fundamental_div_mod_converse(n, depth, hi, z);
    lemma_fundamental_div_mod_converse(hi, depth, x, y);
    assert(n / (depth * depth) == x) by (nonlinear_arith)
        requires
            n == hi * depth + z,
            hi == x * depth + y,
            1 <= depth,
            0 <= x < depth,
            0 <= y < depth,
            0 <= z < depth,
            n / depth == hi,
    {
        assert(n == x * (depth * depth) + (y * depth + z));
        assert(0 <= y * depth + z < depth * depth);
        lemma_fundamental_div_mod_converse(n, depth * depth, x, y * depth + z);
    }
}

/// Creates the collider description for a chunk: a box per opaque in-bounds
/// block, translated by the chunk coordinate times the depth.
pub fn calculate_collider(chunk: &ChunkData, chunk_pos: &Position, config: &ChunkConfig) -> (r:
    Collider)
    requires
        chunk.wf(),
        config.wf(),
        crate::chunk::generation::chunk_world_in_range(config.depth as int, *chunk_pos),
    ensures
        opaque_blocks(config.dict@, chunk@, config.depth as int).len() == 0 ==> r
            == Collider::Placeholder,
        opaque_blocks(config.dict@, chunk@, config.depth as int).len() > 0 ==> (r matches
            Collider::Compound { translation, blocks } && blocks@ == opaque_blocks(
            config.dict@,
            chunk@,
            config.depth as int,
        ) && translation == ((
            (chunk_pos.0 * config.depth) as i32,
            (chunk_pos.1 * config.depth) as i32,
            (chunk_pos.2 * config.depth) as i32,
        ))),
{
    let depth = config.depth;
    let ghost d = depth as int;
    let mut collider_data: Vec<Position> = Vec::new();

    let mut x: i32 = 0;
    while x < depth
        invariant
            chunk.wf(),
            config.wf(),
            depth == config.depth,
            d == depth as int,
            0 <= x <= depth,
            collider_data@ == opaque_prefix(config.dict@, chunk@, d, x * d * d),
        decreases depth - x,
    {
        let mut y: i32 = 0;
        while y < depth
            invariant
                chunk.wf(),
                config.wf(),
                depth == config.depth,
                d == depth as int,
                0 <= x < depth,
                0 <= y <= depth,
                collider_data@ == opaque_prefix(config.dict@, chunk@, d, (x * d + y) * d),
            decreases depth - y,
        {
            let mut z: i32 = 0;
            while z < depth
                invariant
                    chunk.wf(),
                    config.wf(),
                    depth == config.depth,
                    d == depth as int,
                    0 <= x < depth,
                    0 <= y < depth,
                    0 <= z <= depth,
                    collider_data@ == opaque_prefix(
                        config.dict@,
                        chunk@,
                        d,
                        (x * d + y) * d + z,
                    ),
                decreases depth - z,
            {
                let p = (x, y, z);
                let solid = match chunk.get(&p) {
                    Some(block_id) => match config.dict.get(*block_id) {
                        Some(block) => !block.transparent,
                        None => false,
                    },
                    None => false,
                };
                proof {
                    lemma_cube_pos(d, x as int, y as int, z as int);
                    assert(solid == opaque_at(config.dict@, chunk@, cube_pos(d, (x * d + y) * d
                        + z)));
                }
                if solid {
                    collider_data.push(p);
                    proof {
                        assert(collider_data@.drop_last() =~= opaque_prefix(
                            config.dict@,
                            chunk@,
                            d,
                            (x * d + y) * d + z,
                        ));
                        assert(collider_data@ =~= opaque_prefix(
                            config.dict@,
                            chunk@,
                            d,
                            (x * d + y) * d + z + 1,
                        ));
                    }
                } else {
                    proof {
                        assert(collider_data@ =~= opaque_prefix(
                            config.dict@,
                            chunk@,
                            d,
                            (x * d + y) * d + z + 1,
                        ));
                    }
                }
                z += 1;
            }
            proof {
                assert((x * d + y) * d + d == (x * d + (y + 1)) * d) by (nonlinear_arith);
            }
            y += 1;
        }
        proof {
            assert((x * d + d) * d == (x + 1) * d * d) by (nonlinear_arith);
        }
        x += 1;
    }
    proof {
        assert(x as int * d * d == d * d * d) by (nonlinear_arith)
            requires
                x as int == d,
        ;
    }

    if collider_data.len() < 1 {
        return Collider::Placeholder;
    }

    let cx = ((chunk_pos.0 as i64) * (depth as i64)) as i32;
    let cy = ((chunk_pos.1 as i64) * (depth as i64)) as i32;
    let cz = ((chunk_pos.2 as i64) * (depth as i64)) as i32;
    Collider::Compound { translation: (cx, cy, cz), blocks: collider_data }
}

} // verus!
