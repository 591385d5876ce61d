//! Terrain generation from a sampled density field.
//!
//! The density function itself is an outside collaborator evaluated in
//! floating point; its verdicts ("solid here or not") are sampled over a box
//! of world positions and handed in as a [`SolidField`]. Generation is then
//! a pure function of the field: identical samples always give identical
//! chunk data, so chunks can be generated on any number of threads.

use vstd::prelude::*;

verus! {

use crate::chunk::culling::in_halo;
use crate::chunk::{ChunkConfig, ChunkData, Position};

/// Solidity verdicts of the world's density function over a box of world
/// positions: `min` is the lowest corner, `dims` the extent per axis, and
/// the samples are laid out x-major, then y, then z.
pub struct SolidField {
    pub min: Position,
    pub dims: Position,
    pub samples: Vec<bool>,
}

impl SolidField {
    /// The extents are positive and small enough for index arithmetic, the
    /// box stays within coordinate range, and there is one sample per cell.
    pub open spec fn wf(&self) -> bool {
        &&& 1 <= self.dims.0 <= 0x10_0000
        &&& 1 <= self.dims.1 <= 0x10_0000
        &&& 1 <= self.dims.2 <= 0x10_0000
        &&& self.min.0 + self.dims.0 <= i32::MAX
        &&& self.min.1 + self.dims.1 <= i32::MAX
        &&& self.min.2 + self.dims.2 <= i32::MAX
        &&& self.samples@.len() == self.dims.0 * self.dims.1 * self.dims.2
    }

    /// Whether the box holds a sample for world position `p`.
    pub open spec fn covers(&self, p: Position) -> bool {
        &&& self.min.0 <= p.0 < self.min.0 + self.dims.0
        &&& self.min.1 <= p.1 < self.min.1 + self.dims.1
        &&& self.min.2 <= p.2 < self.min.2 + self.dims.2
    }

    /// The sample index of a covered world position.
    pub open spec fn index_of(&self, p: Position) -> int {
        ((p.0 - self.min.0) * (self.dims.1 * self.dims.2)) + (p.1 - self.min.1) * self.dims.2 + (
        p.2 - self.min.2)
    }

    /// The sampled verdict at world position `p`: whether the density
    /// function calls it solid.
    pub open spec fn solid_at(&self, p: Position) -> bool {
        self.samples@[self.index_of(p)]
    }

    /// Reads the sampled verdict for a covered world position.
    pub fn solid(&self, p: &Position) -> (r: bool)
        requires
            self.wf(),
            self.covers(*p),
        ensures
            r == self.solid_at(*p),
    {
        let dx: i64 = p.0 as i64 - self.min.0 as i64;
        let dy: i64 = p.1 as i64 - self.min.1 as i64;
        let dz: i64 = p.2 as i64 - self.min.2 as i64;
        let d1: i64 = self.dims.1 as i64;
        let d2: i64 = self.dims.2 as i64;
        proof {
            assert(d1 as int * d2 as int <= 0x100_0000_0000) by (nonlinear_arith)
                requires
                    1 <= d1 as int <= 0x10_0000,
                    1 <= d2 as int <= 0x10_0000,
            ;
        }
        let plane: i64 = d1 * d2;
        proof {
            assert(0 <= dx as int * plane as int <= 0x1000_0000_0000_0000) by (nonlinear_arith)
                requires
                    0 <= dx as int <= 0x10_0000,
                    0 <= plane as int <= 0x100_0000_0000,
            ;
            assert(0 <= dy as int * d2 as int <= 0x100_0000_0000) by (nonlinear_arith)
                requires
                    0 <= dy as int <= 0x10_0000,
                    0 <= d2 as int <= 0x10_0000,
            ;
        }
        let idx: i64 = dx * plane + dy * d2 + dz;
        proof {
            assert(0 <= self.index_of(*p) < self.samples@.len()) by (nonlinear_arith)
                requires
                    self.index_of(*p) == (p.0 - self.min.0) * (self.dims.1 * self.dims.2) + (p.1
                        - self.min.1) * self.dims.2 + (p.2 - self.min.2),
                    self.samples@.len() == self.dims.0 * self.dims.1 * self.dims.2,
                    0 <= p.0 - self.min.0 < self.dims.0,
                    0 <= p.1 - self.min.1 < self.dims.1,
                    0 <= p.2 - self.min.2 < self.dims.2,
                    1 <= self.dims.0 <= 0x10_0000,
                    1 <= self.dims.1 <= 0x10_0000,
                    1 <= self.dims.2 <= 0x10_0000,
            ;
            assert(idx == self.index_of(*p)) by (nonlinear_arith)
                requires
                    idx == dx as int * (d1 as int * d2 as int) + dy as int * d2 as int + dz as int,
                    dx == p.0 - self.min.0,
                    dy == p.1 - self.min.1,
                    dz == p.2 - self.min.2,
                    d1 == self.dims.1,
                    d2 == self.dims.2,
                    self.index_of(*p) == (p.0 - self.min.0) * (self.dims.1 * self.dims.2) + (p.1
                        - self.min.1) * self.dims.2 + (p.2 - self.min.2),
            ;
        }
        proof {
            vstd::std_specs::vec::axiom_spec_len(&self.samples);
        }
        self.samples[idx as usize]
    }
}

/// The world position of chunk-local position `l` within the chunk at
/// `chunk_pos`.
pub open spec fn world_of(depth: int, chunk_pos: Position, l: Position) -> Position {
    (
        (l.0 + chunk_pos.0 * depth) as i32,
        (l.1 + chunk_pos.1 * depth) as i32,
        (l.2 + chunk_pos.2 * depth) as i32,
    )
}

/// The chunk at `chunk_pos` spans world coordinates that stay in range,
/// halo and the foliage probe column included.
pub open spec fn chunk_world_in_range(depth: int, chunk_pos: Position) -> bool {
    &&& i32::MIN < chunk_pos.0 * depth - 1 && chunk_pos.0 * depth + depth < i32::MAX
    &&& i32::MIN < chunk_pos.1 * depth - 1 && chunk_pos.1 * depth + depth + 4 < i32::MAX
    &&& i32::MIN < chunk_pos.2 * depth - 1 && chunk_pos.2 * depth + depth < i32::MAX
}

/// The field covers the halo-inclusive extent of the chunk at `chunk_pos`.
pub open spec fn field_covers_chunk(field: SolidField, depth: int, chunk_pos: Position) -> bool {
    forall|l: Position| in_halo(depth, l) ==> field.covers(#[trigger] world_of(depth, chunk_pos, l))
}

/// The field also covers the column of up to four positions above each
/// halo position, which surface decoration probes.
pub open spec fn field_covers_foliage(field: SolidField, depth: int, chunk_pos: Position) -> bool {
    forall|l: Position, dy: int|
        in_halo(depth, l) && 0 <= dy < 4 ==> field.covers(
            #[trigger] world_of(depth, chunk_pos, ((l.0, (l.1 + dy) as i32, l.2))),
        )
}

/// Whether the density function reports air anywhere within `dist` steps
/// along the y axis from `p` (upward for positive `dist`, downward for
/// negative).
pub open spec fn spec_air_within(field: SolidField, p: Position, dist: int) -> bool {
    exists|i: int|
        0 <= i < abs_of(dist) && !(#[trigger] field.solid_at(
            (p.0, (p.1 + sign_of(dist) * i) as i32, p.2),
        ))
}

/// The sign of `d`.
pub open spec fn sign_of(d: int) -> int {
    if d > 0 {
        1
    } else if d < 0 {
        -1
    } else {
        0
    }
}

/// The magnitude of `d`.
pub open spec fn abs_of(d: int) -> int {
    if d >= 0 {
        d
    } else {
        -d
    }
}

/// Walks up to `dist` positions along the y axis and reports whether any of
/// them samples as air.
pub fn has_air_within_dist(config: &ChunkConfig, field: &SolidField, pos: [i32; 3], dist: i32)
    -> (r: bool)
    requires
        field.wf(),
        dist != i32::MIN,
        forall|i: int|
            0 <= i < abs_of(dist as int) ==> #[trigger] field.covers(
                (pos[0], (pos[1] + sign_of(dist as int) * i) as i32, pos[2]),
            ),
        dist >= 0 ==> pos[1] + dist <= i32::MAX,
        dist < 0 ==> i32::MIN <= pos[1] + dist,
    ensures
        r == spec_air_within(*field, (pos[0], pos[1], pos[2]), dist as int),
{
    let sgn: i32 = if dist > 0 {
        1
    } else if dist < 0 {
        -1
    } else {
        0
    };
    let n: i32 = if dist < 0 {
        -dist
    } else {
        dist
    };
    let mut i: i32 = 0;
    while i < n
        invariant
            field.wf(),
            n == abs_of(dist as int),
            sgn == sign_of(dist as int),
            0 <= i <= n,
            sgn >= 0 ==> pos[1] + n <= i32::MAX,
            sgn < 0 ==> i32::MIN <= pos[1] - n,
            forall|k: int|
                0 <= k < n ==> #[trigger] field.covers(
                    (pos[0], (pos[1] + sign_of(dist as int) * k) as i32, pos[2]),
                ),
            forall|k: int|
                0 <= k < i ==> #[trigger] field.solid_at(
                    (pos[0], (pos[1] + sign_of(dist as int) * k) as i32, pos[2]),
                ),
        decreases n - i,
    {
        let probe = (pos[0], pos[1] + sgn * i, pos[2]);
        if !field.solid(&probe) {
            proof {
                let pt: Position = (pos[0], pos[1], pos[2]);
                assert(pt.0 == pos[0] && pt.1 == pos[1] && pt.2 == pos[2]);
                assert(!field.solid_at(
                    (pt.0, (pt.1 + sign_of(dist as int) * (i as int)) as i32, pt.2),
                ));
                assert(spec_air_within(*field, pt, dist as int));
            }
            return true;
        }
        i += 1;
    }
    proof {
        let pt = (pos[0], pos[1], pos[2]);
        if spec_air_within(*field, pt, dist as int) {
            let k = choose|k: int|
                0 <= k < abs_of(dist as int) && !(#[trigger] field.solid_at(
                    (pt.0, (pt.1 + sign_of(dist as int) * k) as i32, pt.2),
                ));
            assert(field.solid_at((pos[0], (pos[1] + sign_of(dist as int) * k) as i32, pos[2])));
            assert(false);
        }
    }
    false
}

/// The block identifier generation leaves at a local position, before
/// surface decoration: stone wherever the density function says solid.
pub open spec fn terrain_filled(
    field: SolidField,
    depth: int,
    chunk_pos: Position,
    prior: Map<Position, u32>,
    data: Map<Position, u32>,
) -> bool {
    &&& forall|l: Position|
        in_halo(depth, l) ==> #[trigger] data.contains_key(l) == (field.solid_at(
            world_of(depth, chunk_pos, l),
        ) || prior.contains_key(l))
    &&& forall|l: Position|
        in_halo(depth, l) && field.solid_at(world_of(depth, chunk_pos, l))
            ==> #[trigger] data[l] == 2
    &&& forall|l: Position|
        in_halo(depth, l) && !field.solid_at(world_of(depth, chunk_pos, l))
            && prior.contains_key(l) ==> #[trigger] data[l] == prior[l]
    &&& forall|l: Position|
        !in_halo(depth, l) ==> #[trigger] data.contains_key(l) == prior.contains_key(l) && (
        prior.contains_key(l) ==> data[l] == prior[l])
}

/// Fills `output` with stone at every halo-inclusive local position the
/// density field calls solid.
#[verifier::rlimit(50)]
pub fn generate_terrain(
    config: &ChunkConfig,
    pos: &Position,
    output: &mut ChunkData,
    field: &SolidField,
)
    requires
        config.wf(),
        old(output).wf(),
        field.wf(),
        chunk_world_in_range(config.depth as int, *pos),
        field_covers_chunk(*field, config.depth as int, *pos),
    ensures
        final(output).wf(),
        terrain_filled(*field, config.depth as int, *pos, old(output)@, final(output)@),
{
    let depth = config.depth;
    let ghost d = depth as int;
    let ghost prior = output@;

    let mut x: i32 = -1;
    while x < depth + 1
        invariant
            config.wf(),
            field.wf(),
            depth == config.depth,
            chunk_world_in_range(d, *pos),
            field_covers_chunk(*field, d, *pos),
            d == depth as int,
            -1 <= x <= d + 1,
            output.wf(),
            forall|l: Position|
                in_halo(d, l) && l.0 < x ==> #[trigger] output@.contains_key(l) == (
                field.solid_at(world_of(d, *pos, l)) || prior.contains_key(l)),
            forall|l: Position|
                in_halo(d, l) && l.0 < x && field.solid_at(world_of(d, *pos, l))
                    ==> #[trigger] output@[l] == 2,
            forall|l: Position|
                in_halo(d, l) && l.0 < x && !field.solid_at(world_of(d, *pos, l))
                    && prior.contains_key(l) ==> #[trigger] output@[l] == prior[l],
            forall|l: Position|
                !(in_halo(d, l) && l.0 < x) ==> #[trigger] output@.contains_key(l)
                    == prior.contains_key(l) && (prior.contains_key(l) ==> output@[l] == prior[l]),
        decreases d + 1 - x,
    {
        let mut y: i32 = -1;
        while y < depth + 1
            invariant
                config.wf(),
                field.wf(),
                depth == config.depth,
                chunk_world_in_range(d, *pos),
                field_covers_chunk(*field, d, *pos),
                d == depth as int,
                -1 <= x <= d,
                -1 <= y <= d + 1,
                output.wf(),
                forall|l: Position|
                    in_halo(d, l) && (l.0 < x || (l.0 == x && l.1 < y)) ==> #[trigger] output@.contains_key(
                        l,
                    ) == (field.solid_at(world_of(d, *pos, l)) || prior.contains_key(l)),
                forall|l: Position|
                    in_halo(d, l) && (l.0 < x || (l.0 == x && l.1 < y)) && field.solid_at(
                        world_of(d, *pos, l),
                    ) ==> #[trigger] output@[l] == 2,
                forall|l: Position|
                    in_halo(d, l) && (l.0 < x || (l.0 == x && l.1 < y)) && !field.solid_at(
                        world_of(d, *pos, l),
                    ) && prior.contains_key(l) ==> #[trigger] output@[l] == prior[l],
                forall|l: Position|
                    !(in_halo(d, l) && (l.0 < x || (l.0 == x && l.1 < y)))
                        ==> #[trigger] output@.contains_key(l) == prior.contains_key(l) && (
                    prior.contains_key(l) ==> output@[l] == prior[l]),
            decreases d + 1 - y,
        {
            let mut z: i32 = -1;
            while z < depth + 1
                invariant
                    config.wf(),
                    field.wf(),
                    depth == config.depth,
                    chunk_world_in_range(d, *pos),
                    field_covers_chunk(*field, d, *pos),
                    d == depth as int,
                    -1 <= x <= d,
                    -1 <= y <= d,
                    -1 <= z <= d + 1,
                    output.wf(),
                    forall|l: Position|
                        in_halo(d, l) && (l.0 < x || (l.0 == x && l.1 < y) || (l.0 == x && l.1 == y
                            && l.2 < z)) ==> #[trigger] output@.contains_key(l) == (field.solid_at(
                            world_of(d, *pos, l),
                        ) || prior.contains_key(l)),
                    forall|l: Position|
                        in_halo(d, l) && (l.0 < x || (l.0 == x && l.1 < y) || (l.0 == x && l.1 == y
                            && l.2 < z)) && field.solid_at(world_of(d, *pos, l))
                            ==> #[trigger] output@[l] == 2,
                    forall|l: Position|
                        in_halo(d, l) && (l.0 < x || (l.0 == x && l.1 < y) || (l.0 == x && l.1 == y
                            && l.2 < z)) && !field.solid_at(world_of(d, *pos, l))
                            && prior.contains_key(l) ==> #[trigger] output@[l] == prior[l],
                    forall|l: Position|
                        !(in_halo(d, l) && (l.0 < x || (l.0 == x && l.1 < y) || (l.0 == x && l.1
                            == y && l.2 < z))) ==> #[trigger] output@.contains_key(l)
                            == prior.contains_key(l) && (prior.contains_key(l) ==> output@[l]
                            == prior[l]),
                decreases d + 1 - z,
            {
                let position = (x, y, z);
                let global_position = (
                    ((x as i64) + (pos.0 as i64) * (depth as i64)) as i32,
                    ((y as i64) + (pos.1 as i64) * (depth as i64)) as i32,
                    ((z as i64) + (pos.2 as i64) * (depth as i64)) as i32,
                );
                proof {
                    assert(in_halo(d, position));
                    assert(global_position == world_of(d, *pos, position));
                }
                if field.solid(&global_position) {
                    output.insert(position, 2);
                } else {
                    proof {
                        assert(output@.contains_key(position) == prior.contains_key(position));
                        if prior.contains_key(position) {
                            assert(output@[position] == prior[position]);
                        }
                    }
                }
                z += 1;
            }
            y += 1;
        }
        x += 1;
    }
}

/// The identifier surface decoration leaves for a block: grass where air is
/// within two blocks above, dirt where it is within four, otherwise the
/// block as generated.
pub open spec fn foliage_value(
    field: SolidField,
    depth: int,
    chunk_pos: Position,
    l: Position,
    v: u32,
) -> u32 {
    let w = world_of(depth, chunk_pos, l);
    if spec_air_within(field, w, 2) {
        1
    } else if spec_air_within(field, w, 4) {
        3
    } else {
        v
    }
}

/// Rewrites every generated block for surface decoration: blocks close
/// beneath open air become grass or dirt.
pub fn generate_foliage(
    config: &ChunkConfig,
    pos: &Position,
    output: &mut ChunkData,
    field: &SolidField,
)
    requires
        config.wf(),
        old(output).wf(),
        field.wf(),
        chunk_world_in_range(config.depth as int, *pos),
        field_covers_foliage(*field, config.depth as int, *pos),
        forall|i: int|
            0 <= i < old(output).entries_seq().len() ==> in_halo(
                config.depth as int,
                (#[trigger] old(output).entries_seq()[i]).0,
            ),
    ensures
        final(output).wf(),
        final(output).entries_seq().len() == old(output).entries_seq().len(),
        forall|i: int|
            0 <= i < old(output).entries_seq().len() ==> {
                let before = old(output).entries_seq()[i];
                let after = #[trigger] final(output).entries_seq()[i];
                after.0 == before.0 && after.1 == foliage_value(
                    *field,
                    config.depth as int,
                    *pos,
                    before.0,
                    before.1,
                )
            },
    {
    let depth = config.depth;
    let ghost d = depth as int;

    let n = output.len();
    let mut i: usize = 0;
    while i < n
        invariant
            config.wf(),
            field.wf(),
            depth == config.depth,
            d == depth as int,
            chunk_world_in_range(d, *pos),
            field_covers_foliage(*field, d, *pos),
            n == old(output).entries_seq().len(),
            i <= n,
            output.wf(),
            output.entries_seq().len() == n,
            forall|k: int|
                0 <= k < n ==> in_halo(d, (#[trigger] old(output).entries_seq()[k]).0),
            forall|k: int|
                0 <= k < n ==> (#[trigger] output.entries_seq()[k]).0 == old(
                    output,
                ).entries_seq()[k].0,
            forall|k: int|
                i <= k < n ==> (#[trigger] output.entries_seq()[k]).1 == old(
                    output,
                ).entries_seq()[k].1,
            forall|k: int|
                0 <= k < i ==> (#[trigger] output.entries_seq()[k]).1 == foliage_value(
                    *field,
                    d,
                    *pos,
                    old(output).entries_seq()[k].0,
                    old(output).entries_seq()[k].1,
                ),
        decreases n - i,
    {
        let entry = output.entry_at(i);
        let k = entry.0;
        let v = entry.1;
        let global_position: [i32; 3] = [
            ((k.0 as i64) + (pos.0 as i64) * (depth as i64)) as i32,
            ((k.1 as i64) + (pos.1 as i64) * (depth as i64)) as i32,
            ((k.2 as i64) + (pos.2 as i64) * (depth as i64)) as i32,
        ];
        proof {
            assert(in_halo(d, k));
            assert(global_position[0] == world_of(d, *pos, k).0 && global_position[1] == world_of(
                d,
                *pos,
                k,
            ).1 && global_position[2] == world_of(d, *pos, k).2);
            assert forall|t: int| 0 <= t < abs_of(4) implies #[trigger] field.covers(
                (
                    global_position[0],
                    (global_position[1] + sign_of(4) * t) as i32,
                    global_position[2],
                ),
            ) by {
                assert(field.covers(world_of(d, *pos, ((k.0, (k.1 + t) as i32, k.2)))));
                assert((global_position[1] + sign_of(4) * t) as i32 == world_of(
                    d,
                    *pos,
                    ((k.0, (k.1 + t) as i32, k.2)),
                ).1);
            }
            assert forall|t: int| 0 <= t < abs_of(2) implies #[trigger] field.covers(
                (
                    global_position[0],
                    (global_position[1] + sign_of(2) * t) as i32,
                    global_position[2],
                ),
            ) by {
                assert(field.covers(world_of(d, *pos, ((k.0, (k.1 + t) as i32, k.2)))));
                assert((global_position[1] + sign_of(2) * t) as i32 == world_of(
                    d,
                    *pos,
                    ((k.0, (k.1 + t) as i32, k.2)),
                ).1);
            }
        }
        let mut value = v;
        if has_air_within_dist(config, field, global_position, 4) {
            value = 3;
        }
        if has_air_within_dist(config, field, global_position, 2) {
            value = 1;
        }
        output.set_value_at(i, value);
        i += 1;
    }
}

/// Everything `generate` promises about the chunk data it returns: a block
/// exactly where the density field says solid, grass or dirt near open air,
/// stone below, and nothing outside the halo-inclusive extent.
pub open spec fn generated_chunk(
    field: SolidField,
    depth: int,
    chunk_pos: Position,
    data: Map<Position, u32>,
) -> bool {
    &&& forall|l: Position|
        in_halo(depth, l) ==> #[trigger] data.contains_key(l) == field.solid_at(
            world_of(depth, chunk_pos, l),
        )
    &&& forall|l: Position|
        in_halo(depth, l) && data.contains_key(l) ==> #[trigger] data[l] == foliage_value(
            field,
            depth,
            chunk_pos,
            l,
            2,
        )
    &&& forall|l: Position| !in_halo(depth, l) ==> !(#[trigger] data.contains_key(l))
}

/// Generates the chunk at `pos` from the density field: a terrain pass over
/// the halo-inclusive extent, then a surface-decoration pass. A pure
/// function of its inputs.
pub fn generate(config: &ChunkConfig, pos: &Position, field: &SolidField) -> (output: ChunkData)
    requires
        config.wf(),
        field.wf(),
        chunk_world_in_range(config.depth as int, *pos),
        field_covers_chunk(*field, config.depth as int, *pos),
        field_covers_foliage(*field, config.depth as int, *pos),
    ensures
        output.wf(),
        generated_chunk(*field, config.depth as int, *pos, output@),
{
    let ghost d = config.depth as int;
    let mut output: ChunkData = ChunkData::new();
    generate_terrain(config, pos, &mut output, field);
    proof {
        assert forall|i: int| 0 <= i < output.entries_seq().len() implies in_halo(
            d,
            (#[trigger] output.entries_seq()[i]).0,
        ) by {
            crate::util::pos_map::lemma_map_of_contains_at(output.entries_seq(), i);
            assert(output@.contains_key(output.entries_seq()[i].0));
        }
    }
    let ghost mid = output;
    generate_foliage(config, pos, &mut output, field);
    proof {
        assert forall|l: Position| in_halo(d, l) implies #[trigger] output@.contains_key(l)
            == field.solid_at(world_of(d, *pos, l)) by {
            crate::util::pos_map::lemma_map_of_contains(mid.entries_seq(), l);
            crate::util::pos_map::lemma_map_of_contains(output.entries_seq(), l);
            if output@.contains_key(l) {
                let i = choose|i: int|
                    0 <= i < output.entries_seq().len() && output.entries_seq()[i].0 == l;
                assert(mid.entries_seq()[i].0 == l);
                assert(mid@.contains_key(l));
            }
            if mid@.contains_key(l) {
                let i = choose|i: int|
                    0 <= i < mid.entries_seq().len() && mid.entries_seq()[i].0 == l;
                assert(output.entries_seq()[i].0 == l);
                assert(output@.contains_key(l));
            }
        }
        assert forall|l: Position| in_halo(d, l) && output@.contains_key(l) implies #[trigger] output@[l]
            == foliage_value(*field, d, *pos, l, 2) by {
            crate::util::pos_map::lemma_map_of_contains(output.entries_seq(), l);
            let i = choose|i: int|
                0 <= i < output.entries_seq().len() && output.entries_seq()[i].0 == l;
            crate::util::pos_map::lemma_map_of_index(output.entries_seq(), i);
            crate::util::pos_map::lemma_map_of_index(mid.entries_seq(), i);
            assert(mid.entries_seq()[i].0 == l);
            assert(mid@[l] == mid.entries_seq()[i].1);
            assert(mid@.contains_key(l));
            assert(mid@[l] == 2);
        }
        assert forall|l: Position| !in_halo(d, l) implies !(#[trigger] output@.contains_key(
            l,
        )) by {
            crate::util::pos_map::lemma_map_of_contains(mid.entries_seq(), l);
            crate::util::pos_map::lemma_map_of_contains(output.entries_seq(), l);
            if output@.contains_key(l) {
                let i = choose|i: int|
                    0 <= i < output.entries_seq().len() && output.entries_seq()[i].0 == l;
                assert(mid.entries_seq()[i].0 == l);
                assert(mid@.contains_key(l));
            }
        }
    }
    output
}

/// Produces the chunk at `pos`: no persisted chunks exist, so loading
/// always regenerates from the density field.
pub fn load_chunk(config: &ChunkConfig, pos: &Position, field: &SolidField) -> (output: ChunkData)
    requires
        config.wf(),
        field.wf(),
        chunk_world_in_range(config.depth as int, *pos),
        field_covers_chunk(*field, config.depth as int, *pos),
        field_covers_foliage(*field, config.depth as int, *pos),
    ensures
        output.wf(),
        generated_chunk(*field, config.depth as int, *pos, output@),
{
    generate(config, pos, field)
}


/// The block layout of the corner-shading demo scene: three small
/// structures whose concave corners show the per-vertex attenuation.
#[verifier::opaque]
pub open spec fn ao_demo_layout() -> Map<Position, u32> {
    Map::<Position, u32>::empty().insert((0, 0, 0), 1).insert((0, 0, 1), 1).insert((1, 0, 0), 1).insert((1, 1, 1), 1).insert((2, 0, 0), 1).insert((0, 0, 2), 1).insert((1, 0, 2), 1).insert((2, 0, 1), 1).insert((2, 0, 2), 1).insert((0, 2, 0), 1).insert((0, 2, 1), 1).insert((1, 2, 0), 1).insert((2, 2, 0), 1).insert((0, 2, 2), 1).insert((1, 2, 2), 1).insert((2, 2, 1), 1).insert((2, 2, 2), 1).insert((4, 0, 0), 1).insert((4, 1, 0), 1).insert((4, 2, 0), 1).insert((5, 0, 0), 1).insert((5, 2, 0), 1).insert((6, 0, 0), 1).insert((6, 1, 0), 1).insert((6, 2, 0), 1).insert((5, 1, 1), 1).insert((4, 0, 2), 1).insert((4, 1, 2), 1).insert((4, 2, 2), 1).insert((5, 0, 2), 1).insert((5, 2, 2), 1).insert((6, 0, 2), 1).insert((6, 1, 2), 1).insert((6, 2, 2), 1).insert((8, 0, 0), 1).insert((8, 0, 1), 1).insert((8, 0, 2), 1).insert((8, 1, 0), 1).insert((8, 1, 2), 1).insert((8, 2, 0), 1).insert((8, 2, 1), 1).insert((8, 2, 2), 1).insert((9, 1, 1), 1).insert((10, 0, 0), 1).insert((10, 0, 1), 1).insert((10, 0, 2), 1).insert((10, 1, 0), 1).insert((10, 1, 2), 1).insert((10, 2, 0), 1).insert((10, 2, 1), 1).insert((10, 2, 2), 1)
}

/// Builds the demo chunk used to inspect ambient-occlusion shading.
#[verifier::rlimit(100)]
pub fn ao_test() -> (output: ChunkData)
    ensures
        output.wf(),
        output@ == ao_demo_layout(),
{
    proof {
        reveal(ao_demo_layout);
    }
    let mut output: ChunkData = ChunkData::new();
    output.insert((0, 0, 0), 1);
    output.insert((0, 0, 1), 1);
    output.insert((1, 0, 0), 1);
    output.insert((1, 1, 1), 1);
    output.insert((2, 0, 0), 1);
    output.insert((0, 0, 2), 1);
    output.insert((1, 0, 2), 1);
    output.insert((2, 0, 1), 1);
    output.insert((2, 0, 2), 1);
    output.insert((0, 2, 0), 1);
    output.insert((0, 2, 1), 1);
    output.insert((1, 2, 0), 1);
    output.insert((2, 2, 0), 1);
    output.insert((0, 2, 2), 1);
    output.insert((1, 2, 2), 1);
    output.insert((2, 2, 1), 1);
    output.insert((2, 2, 2), 1);
    output.insert((4, 0, 0), 1);
    output.insert((4, 1, 0), 1);
    output.insert((4, 2, 0), 1);
    output.insert((5, 0, 0), 1);
    output.insert((5, 2, 0), 1);
    output.insert((6, 0, 0), 1);
    output.insert((6, 1, 0), 1);
    output.insert((6, 2, 0), 1);
    output.insert((5, 1, 1), 1);
    output.insert((4, 0, 2), 1);
    output.insert((4, 1, 2), 1);
    output.insert((4, 2, 2), 1);
    output.insert((5, 0, 2), 1);
    output.insert((5, 2, 2), 1);
    output.insert((6, 0, 2), 1);
    output.insert((6, 1, 2), 1);
    output.insert((6, 2, 2), 1);
    output.insert((8, 0, 0), 1);
    output.insert((8, 0, 1), 1);
    output.insert((8, 0, 2), 1);
    output.insert((8, 1, 0), 1);
    output.insert((8, 1, 2), 1);
    output.insert((8, 2, 0), 1);
    output.insert((8, 2, 1), 1);
    output.insert((8, 2, 2), 1);
    output.insert((9, 1, 1), 1);
    output.insert((10, 0, 0), 1);
    output.insert((10, 0, 1), 1);
    output.insert((10, 0, 2), 1);
    output.insert((10, 1, 0), 1);
    output.insert((10, 1, 2), 1);
    output.insert((10, 2, 0), 1);
    output.insert((10, 2, 1), 1);
    output.insert((10, 2, 2), 1);
    output
}

} // verus!
