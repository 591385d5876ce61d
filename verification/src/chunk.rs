//! Chunk pipeline: spatial indexing, chunk configuration and the chunk
//! store.
//!
//! The world is partitioned into cubic chunks of `depth` blocks per axis.
//! Each chunk is generated with a one-block halo on every side so meshing can
//! cull boundary faces without cross-chunk lookups; only positions in
//! `[0, depth)` are meshed.

use vstd::prelude::*;

pub mod block;
pub mod collision;
pub mod cube_model;
pub mod culling;
pub mod generation;
pub mod loading;
pub mod meshing;

verus! {

use crate::util::pos_map::PosMap;
use block::BlockDictionary;

/// An integer triple: a block position (world or chunk-local) or a chunk
/// coordinate.
pub type Position = crate::util::pos_map::Position;

/// Sparse per-chunk block data: local position (halo included) to block-type
/// identifier. An absent key is air.
pub type ChunkData = PosMap<u32>;

/// The chunk store: chunk coordinate to chunk data.
pub type ChunkStorage = PosMap<ChunkData>;

/// Every chunk data held by a store has distinct entries.
pub open spec fn storage_wf(store: ChunkStorage) -> bool {
    &&& store.wf()
    &&& forall|c: Position| store@.contains_key(c) ==> (#[trigger] store@[c]).wf()
}

/// World-wide configuration of the chunk pipeline.
///
/// The density function that drives terrain generation is an outside
/// collaborator evaluated in floating point; generation here reads its
/// verdicts from a sampled field, so the configuration holds no noise state.
pub struct ChunkConfig {
    /// Blocks per chunk axis.
    pub depth: i32,
    /// Chebyshev radius, in chunks, within which chunks must be resident.
    pub load_radius: u32,
    /// The block registry.
    pub dict: BlockDictionary,
}

impl ChunkConfig {
    /// `depth` must fit the 7-bit vertex coordinate format of the mesher.
    pub open spec fn wf(&self) -> bool {
        &&& 1 <= self.depth <= 127
        &&& self.dict.wf()
    }

    /// A configuration with the default registry: air, grass, stone, dirt.
    pub fn new(depth: i32, load_radius: u32) -> (r: Self)
        requires
            1 <= depth <= 127,
        ensures
            r.wf(),
            r.depth == depth,
            r.load_radius == load_radius,
            r.dict@.contains_key(1) && r.dict@[1].model == block::BlockModel::Cube && !r.dict@[1].transparent,
            r.dict@.contains_key(2) && r.dict@[2].model == block::BlockModel::Cube && !r.dict@[2].transparent,
            r.dict@.contains_key(3) && r.dict@[3].model == block::BlockModel::Cube && !r.dict@[3].transparent,
    {
        Self { depth, load_radius, dict: BlockDictionary::with_defaults() }
    }
}

/// The chunk-local coordinate of a world coordinate: the remainder of floor
/// division by the depth, non-negative for any sign of `pos`.
pub open spec fn spec_local(pos: int, depth: int) -> int
    recommends
        depth > 0,
{
    pos % depth
}

/// The chunk coordinate of a world coordinate: floor division by the depth.
pub open spec fn spec_chunk(pos: int, depth: int) -> int
    recommends
        depth > 0,
{
    pos / depth
}

/// Convert a world-space block coordinate into the chunk-local coordinate.
pub fn local_block_pos(chunk_config: &ChunkConfig, pos: i32) -> (r: i32)
    requires
        chunk_config.wf(),
    ensures
        r == spec_local(pos as int, chunk_config.depth as int),
        0 <= r < chunk_config.depth,
{
    let size = chunk_config.depth as u32;
    if pos >= 0 {
        ((pos as u32) % size) as i32
    } else {
        let n: u64 = (-(pos as i64)) as u64;
        let s: u64 = size as u64;
        let q: u64 = n / s;
        let r: u64 = n % s;
        proof {
            vstd::arithmetic::div_mod::lemma_fundamental_div_mod(n as int, s as int);
            if r == 0 {
                assert(pos as int == (-(q as int)) * (s as int) + 0) by (nonlinear_arith)
                    requires
                        n as int == (s as int) * (q as int) + (r as int),
                        r as int == 0,
                        pos as int == -(n as int),
                ;
                vstd::arithmetic::div_mod::lemma_fundamental_div_mod_converse(
                    pos as int,
                    s as int,
                    -(q as int),
                    0,
                );
            } else {
                assert(pos as int == (-(q as int) - 1) * (s as int) + (s as int - r as int))
                    by (nonlinear_arith)
                    requires
                        n as int == (s as int) * (q as int) + (r as int),
                        pos as int == -(n as int),
                ;
                vstd::arithmetic::div_mod::lemma_fundamental_div_mod_converse(
                    pos as int,
                    s as int,
                    -(q as int) - 1,
                    s as int - r as int,
                );
            }
        }
        if r == 0 {
            0
        } else {
            (s - r) as i32
        }
    }
}

/// Convert a world-space block position tuple into the chunk-local tuple.
pub fn local_position(chunk_config: &ChunkConfig, pos: &Position) -> (r: Position)
    requires
        chunk_config.wf(),
    ensures
        r == spec_local_position(*pos, chunk_config.depth as int),
{
    (
        local_block_pos(chunk_config, pos.0),
        local_block_pos(chunk_config, pos.1),
        local_block_pos(chunk_config, pos.2),
    )
}

/// Per-axis chunk-local coordinates of a world-space position.
pub open spec fn spec_local_position(pos: Position, depth: int) -> Position {
    (
        spec_local(pos.0 as int, depth) as i32,
        spec_local(pos.1 as int, depth) as i32,
        spec_local(pos.2 as int, depth) as i32,
    )
}

/// Convert a world-space coordinate into its chunk coordinate, by floor
/// division: negative coordinates map to negative chunks.
pub fn global_chunk_pos(chunk_config: &ChunkConfig, pos: i32) -> (r: i32)
    requires
        chunk_config.wf(),
    ensures
        r == spec_chunk(pos as int, chunk_config.depth as int),
{
    let size = chunk_config.depth as u32;
    if pos >= 0 {
        ((pos as u32) / size) as i32
    } else {
        let n: u64 = (-(pos as i64)) as u64;
        let s: u64 = size as u64;
        let q: u64 = n / s;
        let r: u64 = n % s;
        proof {
            vstd::arithmetic::div_mod::lemma_fundamental_div_mod(n as int, s as int);
            assert(q as int <= n as int) by (nonlinear_arith)
                requires
                    n as int == (s as int) * (q as int) + (r as int),
                    r as int >= 0,
                    s as int >= 1,
                    q as int >= 0,
            ;
            if r == 0 {
                assert(pos as int == (-(q as int)) * (s as int) + 0) by (nonlinear_arith)
                    requires
                        n as int == (s as int) * (q as int) + (r as int),
                        r as int == 0,
                        pos as int == -(n as int),
                ;
                vstd::arithmetic::div_mod::lemma_fundamental_div_mod_converse(
                    pos as int,
                    s as int,
                    -(q as int),
                    0,
                );
            } else {
                assert(q as int <= (n as int) / 2) by (nonlinear_arith)
                    requires
                        n as int == (s as int) * (q as int) + (r as int),
                        0 < (r as int) && (r as int) < (s as int),
                        s as int >= 2,
                        q as int >= 0,
                ;
                assert(pos as int == (-(q as int) - 1) * (s as int) + (s as int - r as int))
                    by (nonlinear_arith)
                    requires
                        n as int == (s as int) * (q as int) + (r as int),
                        pos as int == -(n as int),
                ;
                vstd::arithmetic::div_mod::lemma_fundamental_div_mod_converse(
                    pos as int,
                    s as int,
                    -(q as int) - 1,
                    s as int - r as int,
                );
            }
        }
        if r == 0 {
            (-(q as i64)) as i32
        } else {
            (-(q as i64) - 1) as i32
        }
    }
}

/// Per-axis chunk coordinates of a world-space position.
pub open spec fn spec_chunk_position(pos: Position, depth: int) -> Position {
    (
        spec_chunk(pos.0 as int, depth) as i32,
        spec_chunk(pos.1 as int, depth) as i32,
        spec_chunk(pos.2 as int, depth) as i32,
    )
}

/// Convert a world-space position tuple into its chunk coordinate tuple.
pub fn chunk_position(chunk_config: &ChunkConfig, pos: &Position) -> (r: Position)
    requires
        chunk_config.wf(),
    ensures
        r == spec_chunk_position(*pos, chunk_config.depth as int),
{
    (
        global_chunk_pos(chunk_config, pos.0),
        global_chunk_pos(chunk_config, pos.1),
        global_chunk_pos(chunk_config, pos.2),
    )
}

/// For every world-block coordinate `pos` and every `depth > 0`, the local
/// coordinate is in `[0, depth)`, and the chunk coordinate times the depth
/// plus the local coordinate gives back `pos`.
pub proof fn lemma_chunk_local_decomposition(pos: int, depth: int)
    requires
        depth > 0,
    ensures
        0 <= spec_local(pos, depth) < depth,
        depth * spec_chunk(pos, depth) + spec_local(pos, depth) == pos,
{
    vstd::arithmetic::div_mod::lemma_fundamental_div_mod(pos, depth);
    vstd::arithmetic::div_mod::lemma_mod_bound(pos, depth);
}

/// The stable identifier of a chunk coordinate: each axis offset into
/// `[0, 2^32)` and packed into one integer, so distinct coordinates get
/// distinct identifiers over the whole coordinate domain.
pub open spec fn chunk_key(pos: Position) -> u128 {
    ((pos.0 + 0x8000_0000) * 0x1_0000_0000_0000_0000 + (pos.1 + 0x8000_0000) * 0x1_0000_0000 + (
    pos.2 + 0x8000_0000)) as u128
}

/// The chunk coordinate encoded by an identifier.
pub open spec fn key_chunk(key: u128) -> Position {
    (
        ((key as int / 0x1_0000_0000_0000_0000) - 0x8000_0000) as i32,
        ((key as int / 0x1_0000_0000) % 0x1_0000_0000 - 0x8000_0000) as i32,
        (key as int % 0x1_0000_0000 - 0x8000_0000) as i32,
    )
}

/// Take a chunk coordinate and return its identifier.
pub fn chunk_id(pos: &Position) -> (r: u128)
    ensures
        r == chunk_key(*pos),
        key_chunk(r) == *pos,
{
    let a: u128 = (pos.0 as i64 + 0x8000_0000) as u128;
    let b: u128 = (pos.1 as i64 + 0x8000_0000) as u128;
    let c: u128 = (pos.2 as i64 + 0x8000_0000) as u128;
    let r = a * 0x1_0000_0000_0000_0000 + b * 0x1_0000_0000 + c;
    proof {
        lemma_chunk_key_roundtrip(*pos);
    }
    r
}

/// Recover the chunk coordinate from an identifier.
pub fn chunk_pos_from_id(chunk_id: u128) -> (r: Position)
    requires
        chunk_id < 0x1_0000_0000_0000_0000_0000_0000,
    ensures
        r == key_chunk(chunk_id),
{
    let a: u128 = chunk_id / 0x1_0000_0000_0000_0000;
    let b: u128 = (chunk_id / 0x1_0000_0000) % 0x1_0000_0000;
    let c: u128 = chunk_id % 0x1_0000_0000;
    ((a as i64 - 0x8000_0000) as i32, (b as i64 - 0x8000_0000) as i32, (c as i64 - 0x8000_0000) as i32)
}

/// Decoding an identifier gives back the coordinate it was made from; hence
/// the identifier is injective over the whole coordinate domain.
pub proof fn lemma_chunk_key_roundtrip(pos: Position)
    ensures
        key_chunk(chunk_key(pos)) == pos,
        chunk_key(pos) < 0x1_0000_0000_0000_0000_0000_0000,
{
    let a = pos.0 + 0x8000_0000;
    let b = pos.1 + 0x8000_0000;
    let c = pos.2 + 0x8000_0000;
    let k = chunk_key(pos) as int;
    assert(k == a * 0x1_0000_0000_0000_0000 + b * 0x1_0000_0000 + c);
    assert(0 <= a < 0x1_0000_0000 && 0 <= b < 0x1_0000_0000 && 0 <= c < 0x1_0000_0000);
    assert(k / 0x1_0000_0000_0000_0000 == a && (k / 0x1_0000_0000) % 0x1_0000_0000 == b && k
        % 0x1_0000_0000 == c) by (nonlinear_arith)
        requires
            k == a * 0x1_0000_0000_0000_0000 + b * 0x1_0000_0000 + c,
            0 <= a < 0x1_0000_0000,
            0 <= b < 0x1_0000_0000,
            0 <= c < 0x1_0000_0000,
    ;
}

/// The block-type identifier stored at a raw world position, or `0` (air)
/// when its chunk is not loaded or holds nothing there.
pub open spec fn spec_get_block(
    chunk_config: ChunkConfig,
    loaded_chunks: ChunkStorage,
    raw_position: Position,
) -> u32 {
    let cp = spec_chunk_position(raw_position, chunk_config.depth as int);
    let lp = spec_local_position(raw_position, chunk_config.depth as int);
    if loaded_chunks@.contains_key(cp) && loaded_chunks@[cp]@.contains_key(lp) {
        loaded_chunks@[cp]@[lp]
    } else {
        0
    }
}

/// Level of detail: how many blocks per axis make up a chunk's mesh; the
/// finest level equals the chunk size.
pub struct LOD(u32);

impl LOD {
    /// The number of blocks per axis at this level.
    pub closed spec fn blocks(&self) -> u32 {
        self.0
    }
}

/// The level of detail to mesh a chunk at; always the finest.
pub fn calc_lod() -> (r: LOD)
    ensures
        r.blocks() == 16,
{
    LOD(16)
}

/// Look up the block stored at a world position across the loaded chunks.
pub fn get_block(
    chunk_config: &ChunkConfig,
    loaded_chunks: &ChunkStorage,
    raw_position: &Position,
) -> (r: u32)
    requires
        chunk_config.wf(),
        storage_wf(*loaded_chunks),
    ensures
        r == spec_get_block(*chunk_config, *loaded_chunks, *raw_position),
{
    let chunk_pos = chunk_position(chunk_config, raw_position);
    let chunk_query = loaded_chunks.get(&chunk_pos);
    if let Some(chunk_data) = chunk_query {
        let block_pos = local_position(chunk_config, raw_position);
        let block = chunk_data.get(&block_pos);
        if let Some(block_id) = block {
            return *block_id;
        }
    }
    0
}

} // verus!
