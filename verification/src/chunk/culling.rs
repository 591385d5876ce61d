//! Visibility graphs and the chunk-level occlusion culler.
//!
//! Each chunk gets a 6x6 face-reachability matrix built by flood-filling its
//! transparent interior from the boundary shell; the renderer then walks the
//! loaded chunks breadth-first, pruning neighbors whose entry face cannot be
//! reached from the face the search came in through.

use vstd::prelude::*;

verus! {

use std::collections::VecDeque;
use crate::chunk::block::Block;
use crate::chunk::cube_model::{is_transparent, transparent_at};
use crate::chunk::{ChunkConfig, ChunkData, ChunkStorage, Position};
use crate::util::pos_map::{PosMap, key_index, lemma_key_index};
use crate::util::vec_set::{VecSet, eq_reflects, lemma_distinct_seq_len};
use vstd::arithmetic::div_mod::lemma_fundamental_div_mod_converse;
use vstd::std_specs::cmp::PartialEqSpec;

/// The six faces of a chunk.
#[derive(Clone, Copy, PartialEq, Eq, Structural, Debug)]
pub enum Side {
    FRONT,
    BACK,
    TOP,
    BOTTOM,
    LEFT,
    RIGHT,
}

impl Side {
    /// The row/column of this face in a visibility matrix.
    pub open spec fn as_index(self) -> int {
        match self {
            Side::FRONT => 0,
            Side::BACK => 1,
            Side::TOP => 2,
            Side::BOTTOM => 3,
            Side::LEFT => 4,
            Side::RIGHT => 5,
        }
    }

    /// The face on the other side of the chunk.
    pub open spec fn spec_opposite(self) -> Side {
        match self {
            Side::FRONT => Side::BACK,
            Side::BACK => Side::FRONT,
            Side::TOP => Side::BOTTOM,
            Side::BOTTOM => Side::TOP,
            Side::LEFT => Side::RIGHT,
            Side::RIGHT => Side::LEFT,
        }
    }

    /// The matrix index of this face.
    pub fn index(self) -> (i: usize)
        ensures
            i == self.as_index(),
            i < 6,
    {
        match self {
            Side::FRONT => 0,
            Side::BACK => 1,
            Side::TOP => 2,
            Side::BOTTOM => 3,
            Side::LEFT => 4,
            Side::RIGHT => 5,
        }
    }

    pub fn opposite(self) -> (r: Self)
        ensures
            r == self.spec_opposite(),
    {
        match self {
            Side::FRONT => Side::BACK,
            Side::BACK => Side::FRONT,
            Side::TOP => Side::BOTTOM,
            Side::BOTTOM => Side::TOP,
            Side::LEFT => Side::RIGHT,
            Side::RIGHT => Side::LEFT,
        }
    }

    /// All six faces.
    pub fn iter() -> (r: Vec<Side>)
        ensures
            r@ == seq![
                Side::FRONT,
                Side::BACK,
                Side::TOP,
                Side::BOTTOM,
                Side::LEFT,
                Side::RIGHT,
            ],
    {
        let mut sides: Vec<Side> = Vec::new();
        sides.push(Side::FRONT);
        sides.push(Side::BACK);
        sides.push(Side::TOP);
        sides.push(Side::BOTTOM);
        sides.push(Side::LEFT);
        sides.push(Side::RIGHT);
        proof {
            assert(sides@ =~= seq![
                Side::FRONT,
                Side::BACK,
                Side::TOP,
                Side::BOTTOM,
                Side::LEFT,
                Side::RIGHT,
            ]);
        }
        sides
    }
}

/// Distinct faces occupy distinct matrix indices.
pub proof fn lemma_side_index()
    ensures
        forall|s: Side| 0 <= (#[trigger] s.as_index()) < 6,
        forall|a: Side, b: Side| a.as_index() == b.as_index() ==> a == b,
{
}

/// A 6x6 matrix recording which faces of a chunk can see each other through
/// its transparent interior.
#[derive(Debug)]
pub struct VisibilityGraph([[bool; 6]; 6]);

/// Per-chunk visibility graphs, keyed by chunk coordinate.
pub type VisibilityGraphStorage = PosMap<VisibilityGraph>;

impl VisibilityGraph {
    /// Whether sight can pass from face `a` to face `b`.
    pub closed spec fn reach(self, a: Side, b: Side) -> bool {
        self.0[a.as_index()][b.as_index()]
    }

    /// The initial matrix: every face reaches itself and nothing else.
    pub fn empty_graph() -> (g: Self)
        ensures
            forall|a: Side, b: Side| #[trigger] g.reach(a, b) == (a == b),
    {
        let g = VisibilityGraph(
            [
                [true, false, false, false, false, false],
                [false, true, false, false, false, false],
                [false, false, true, false, false, false],
                [false, false, false, true, false, false],
                [false, false, false, false, true, false],
                [false, false, false, false, false, true],
            ],
        );
        proof {
            lemma_side_index();
            assert forall|a: Side, b: Side| #[trigger] g.reach(a, b) == (a == b) by {
                let i = a.as_index();
                let j = b.as_index();
                assert(g.0[i][j] == (i == j));
            }
        }
        g
    }

    /// Marks faces `a` and `b` as mutually reachable.
    fn set_pair(&mut self, a: Side, b: Side)
        ensures
            final(self).reach(a, b),
            final(self).reach(b, a),
            forall|x: Side, y: Side|
                !(x == a && y == b) && !(x == b && y == a) ==> #[trigger] final(self).reach(x, y)
                    == old(self).reach(x, y),
    {
        let ai = a.index();
        let bi = b.index();
        self.0[ai][bi] = true;
        self.0[bi][ai] = true;
        proof {
            lemma_side_index();
        }
    }

    /// O(1) lookup: whether sight can pass from `side1` to `side2`.
    pub fn can_reach_from(&self, side1: Side, side2: Side) -> (r: bool)
        ensures
            r == self.reach(side1, side2),
    {
        let matrix = &self.0;
        let x = side1.index();
        let y = side2.index();
        matrix[x][y]
    }

    /// Builds the visibility graph of a chunk: seed every transparent
    /// boundary position, flood-fill each connected pocket of transparent
    /// space, and mark every pair of faces touched by one fill as mutually
    /// reachable. Two faces see each other exactly when a 6-connected walk
    /// of transparent in-bounds cells joins their boundary planes.
    #[verifier::rlimit(100)]
    pub fn from_chunk(config: &ChunkConfig, chunk_data: &ChunkData) -> (g: Self)
        requires
            config.wf(),
            chunk_data.wf(),
        ensures
            forall|a: Side| #[trigger] g.reach(a, a),
            forall|a: Side, b: Side| #[trigger] g.reach(a, b) == g.reach(b, a),
            boundary_sealed(config.dict@, chunk_data@, config.depth as int) ==> forall|
                a: Side,
                b: Side,
            |
                #[trigger] g.reach(a, b) == (a == b),
            forall|a: Side, b: Side| #[trigger]
                g.reach(a, b) == (a == b || faces_connected(
                    config.dict@,
                    chunk_data@,
                    config.depth as int,
                    a,
                    b,
                )),
    {
        let depth = config.depth;
        let ghost gd = config.dict@;
        let ghost gc = chunk_data@;
        let ghost d: int = depth as int;

        let mut fill_seeds: VecSet<Position> = VecSet::new();
        proof {
            lemma_triple_eq_reflects();
        }
        let mut x: i32 = 0;
        while x < depth
            invariant
                config.wf(),
                chunk_data.wf(),
                depth == config.depth,
                gd == config.dict@,
                gc == chunk_data@,
                d == depth as int,
                0 <= x <= depth,
                fill_seeds.wf(),
                eq_reflects::<Position>(),
                forall|p: Position| #[trigger]
                    fill_seeds@.contains(p) ==> on_boundary(d, p) && transparent_at(gd, gc, p),
                forall|p: Position|
                    open_cell(gd, gc, d, p) && #[trigger] on_boundary(d, p) && p.0 < x
                        ==> fill_seeds@.contains(p),
            decreases depth - x,
        {
            let mut y: i32 = 0;
            while y < depth
                invariant
                    config.wf(),
                    chunk_data.wf(),
                    depth == config.depth,
                    gd == config.dict@,
                    gc == chunk_data@,
                    d == depth as int,
                    0 <= x < depth,
                    0 <= y <= depth,
                    fill_seeds.wf(),
                    eq_reflects::<Position>(),
                    forall|p: Position| #[trigger]
                        fill_seeds@.contains(p) ==> on_boundary(d, p) && transparent_at(gd, gc, p),
                    forall|p: Position|
                        open_cell(gd, gc, d, p) && #[trigger] on_boundary(d, p) && (p.0 < x || (p.0
                            == x && p.1 < y)) ==> fill_seeds@.contains(p),
                decreases depth - y,
            {
                let mut z: i32 = 0;
                while z < depth
                    invariant
                        config.wf(),
                        chunk_data.wf(),
                        depth == config.depth,
                        gd == config.dict@,
                        gc == chunk_data@,
                        d == depth as int,
                        0 <= x < depth,
                        0 <= y < depth,
                        0 <= z <= depth,
                        fill_seeds.wf(),
                        eq_reflects::<Position>(),
                        forall|p: Position| #[trigger]
                            fill_seeds@.contains(p) ==> on_boundary(d, p) && transparent_at(
                                gd,
                                gc,
                                p,
                            ),
                        forall|p: Position|
                            open_cell(gd, gc, d, p) && #[trigger] on_boundary(d, p) && (p.0 < x || (
                            p.0 == x && p.1 < y) || (p.0 == x && p.1 == y && p.2 < z))
                                ==> fill_seeds@.contains(p),
                    decreases depth - z,
                {
                    let on_shell = x == 0 || x == depth - 1 || y == 0 || y == depth - 1 || z == 0
                        || z == depth - 1;
                    if on_shell {
                        let pos = (x, y, z);
                        if is_transparent(chunk_data, config, &pos) {
                            fill_seeds.insert(pos);
                        }
                    }
                    z += 1;
                }
                y += 1;
            }
            x += 1;
        }

        let mut output = VisibilityGraph::empty_graph();
        let mut visited: VecSet<Position> = VecSet::new();
        while fill_seeds.len() > 0
            invariant
                config.wf(),
                chunk_data.wf(),
                depth == config.depth,
                gd == config.dict@,
                gc == chunk_data@,
                d == depth as int,
                fill_seeds.wf(),
                visited.wf(),
                eq_reflects::<Position>(),
                forall|p: Position| #[trigger]
                    fill_seeds@.contains(p) ==> on_boundary(d, p) && transparent_at(gd, gc, p),
                forall|p: Position| #[trigger] visited@.contains(p) ==> in_halo(d, p),
                forall|a: Side| #[trigger] output.reach(a, a),
                forall|a: Side, b: Side| #[trigger] output.reach(a, b) == output.reach(b, a),
                boundary_sealed(gd, gc, d) ==> forall|a: Side, b: Side| #[trigger]
                    output.reach(a, b) == (a == b),
                // the visited region is closed under open adjacency
                forall|p: Position, q: Position|
                    visited@.contains(p) && open_cell(gd, gc, d, p) && open_cell(gd, gc, d, q)
                        && #[trigger] adjacent(p, q) ==> visited@.contains(q),
                forall|p: Position| #[trigger] fill_seeds@.contains(p) ==> !visited@.contains(p),
                // every open boundary cell is still to be filled or done
                forall|p: Position|
                    open_cell(gd, gc, d, p) && #[trigger] on_boundary(d, p)
                        ==> fill_seeds@.contains(p) || visited@.contains(p),
                // everything marked reachable is joined by an open walk
                forall|a: Side, b: Side|
                    a != b && #[trigger] output.reach(a, b) ==> faces_connected(gd, gc, d, a, b),
                // everything joined within the filled region is marked
                forall|p: Position, q: Position, a: Side, b: Side|
                    #![trigger on_face_plane(d, a, p), on_face_plane(d, b, q), connected(gd, gc, d, p, q)]
                    visited@.contains(p) && visited@.contains(q) && open_cell(gd, gc, d, p)
                        && open_cell(gd, gc, d, q) && connected(gd, gc, d, p, q) && on_face_plane(
                        d,
                        a,
                        p,
                    ) && on_face_plane(d, b, q) ==> output.reach(a, b),
            decreases fill_seeds@.len(),
        {
            let ghost vis_before = visited@;
            let ghost seeds_at_tick = fill_seeds@;
            let pos = match fill_seeds.remove_front() {
                Some(p) => p,
                None => vstd::pervasive::unreached(),
            };
            proof {
                // this seed disproves a sealed boundary and is an open cell
                assert(on_boundary(d, pos) && transparent_at(gd, gc, pos));
                assert(!boundary_sealed(gd, gc, d));
                assert(open_cell(gd, gc, d, pos));
                assert(!visited@.contains(pos));
                assert forall|p: Position| #[trigger]
                    fill_seeds@.contains(p) implies in_halo(d, p) by {
                    assert(on_boundary(d, p));
                }
            }
            let ghost seeds_before_fill = fill_seeds@;
            let sides = flood_fill(config, chunk_data, &pos, &mut fill_seeds, &mut visited);
            let ghost g_fill = output;

            let mut i: usize = 0;
            while i < sides.len()
                invariant
                    config.wf(),
                    chunk_data.wf(),
                    gd == config.dict@,
                    gc == chunk_data@,
                    d == depth as int,
                    i <= sides@.len(),
                    !boundary_sealed(gd, gc, d),
                    open_cell(gd, gc, d, pos),
                    forall|t: Side| #[trigger]
                        sides@.contains(t) ==> exists|p: Position|
                            (#[trigger] on_face_plane(d, t, p)) && open_cell(gd, gc, d, p)
                                && connected(gd, gc, d, pos, p),
                    forall|a: Side| #[trigger] output.reach(a, a),
                    forall|a: Side, b: Side| #[trigger] output.reach(a, b) == output.reach(b, a),
                    forall|a: Side, b: Side|
                        #[trigger] g_fill.reach(a, b) ==> output.reach(a, b),
                    forall|a: Side, b: Side|
                        a != b && #[trigger] output.reach(a, b) ==> faces_connected(
                            gd,
                            gc,
                            d,
                            a,
                            b,
                        ),
                    forall|ii: int, jj: int|
                        0 <= ii < i && ii <= jj < sides@.len() ==> output.reach(
                            #[trigger] sides@[ii],
                            #[trigger] sides@[jj],
                        ) && output.reach(sides@[jj], sides@[ii]),
                decreases sides@.len() - i,
            {
                let mut j: usize = i;
                while j < sides.len()
                    invariant
                        config.wf(),
                        chunk_data.wf(),
                        gd == config.dict@,
                        gc == chunk_data@,
                        d == depth as int,
                        i < sides@.len(),
                        i <= j <= sides@.len(),
                        !boundary_sealed(gd, gc, d),
                        open_cell(gd, gc, d, pos),
                        forall|t: Side| #[trigger]
                            sides@.contains(t) ==> exists|p: Position|
                                (#[trigger] on_face_plane(d, t, p)) && open_cell(gd, gc, d, p)
                                    && connected(gd, gc, d, pos, p),
                        forall|a: Side| #[trigger] output.reach(a, a),
                        forall|a: Side, b: Side| #[trigger] output.reach(a, b) == output.reach(
                            b,
                            a,
                        ),
                        forall|a: Side, b: Side|
                            #[trigger] g_fill.reach(a, b) ==> output.reach(a, b),
                        forall|a: Side, b: Side|
                            a != b && #[trigger] output.reach(a, b) ==> faces_connected(
                                gd,
                                gc,
                                d,
                                a,
                                b,
                            ),
                        forall|ii: int, jj: int|
                            0 <= ii < i && ii <= jj < sides@.len() ==> output.reach(
                                #[trigger] sides@[ii],
                                #[trigger] sides@[jj],
                            ) && output.reach(sides@[jj], sides@[ii]),
                        forall|jj: int|
                            i <= jj < j ==> output.reach(sides@[i as int], #[trigger] sides@[jj])
                                && output.reach(sides@[jj], sides@[i as int]),
                    decreases sides@.len() - j,
                {
                    proof {
                        assert(sides@.contains(sides@[i as int]));
                        assert(sides@.contains(sides@[j as int]));
                    }
                    let ghost g_prev = output;
                    output.set_pair(sides[i], sides[j]);
                    proof {
                        let si = sides@[i as int];
                        let sj = sides@[j as int];
                        let pi = choose|p: Position|
                            (#[trigger] on_face_plane(d, si, p)) && open_cell(gd, gc, d, p)
                                && connected(gd, gc, d, pos, p);
                        let pj = choose|p: Position|
                            (#[trigger] on_face_plane(d, sj, p)) && open_cell(gd, gc, d, p)
                                && connected(gd, gc, d, pos, p);
                        lemma_faces_connected_via_hub(gd, gc, d, pos, si, sj, pi, pj);
                        assert forall|a: Side, b: Side|
                            a != b && #[trigger] output.reach(a, b) implies faces_connected(
                            gd,
                            gc,
                            d,
                            a,
                            b,
                        ) by {
                            if !((a == si && b == sj) || (a == sj && b == si)) {
                                assert(g_prev.reach(a, b));
                            }
                        }
                    }
                    j += 1;
                }
                i += 1;
            }
            proof {
                // every pair of faces this fill touched is now marked
                assert forall|a: Side, b: Side|
                    sides@.contains(a) && sides@.contains(b) implies output.reach(a, b) by {
                    let ia = choose|ia: int| 0 <= ia < sides@.len() && sides@[ia] == a;
                    let ib = choose|ib: int| 0 <= ib < sides@.len() && sides@[ib] == b;
                    if ia <= ib {
                        assert(output.reach(sides@[ia], sides@[ib]));
                    } else {
                        assert(output.reach(sides@[ib], sides@[ia]));
                        assert(output.reach(sides@[ia], sides@[ib]));
                    }
                }
                // open boundary cells are accounted for: still seeded or filled
                assert forall|p: Position|
                    open_cell(gd, gc, d, p) && #[trigger] on_boundary(d, p)
                        implies fill_seeds@.contains(p) || visited@.contains(p) by {
                    if seeds_at_tick.contains(p) {
                        if !fill_seeds@.contains(p) {
                            if p == pos {
                                assert(visited@.contains(p));
                            } else {
                                let k = choose|k: int|
                                    0 <= k < seeds_at_tick.len() && seeds_at_tick[k] == p;
                                assert(k != 0);
                                assert(seeds_before_fill[k - 1] == p);
                                assert(seeds_before_fill.contains(p));
                            }
                        }
                    }
                }
                // reachability within the filled region is fully marked
                assert forall|p: Position, q: Position, a: Side, b: Side|
                    #![trigger on_face_plane(d, a, p), on_face_plane(d, b, q), connected(gd, gc, d, p, q)]
                    visited@.contains(p) && visited@.contains(q) && open_cell(gd, gc, d, p)
                        && open_cell(gd, gc, d, q) && connected(gd, gc, d, p, q) && on_face_plane(
                        d,
                        a,
                        p,
                    ) && on_face_plane(d, b, q) implies output.reach(a, b) by {
                    if vis_before.contains(p) && vis_before.contains(q) {
                        assert(g_fill.reach(a, b));
                    } else if !vis_before.contains(p) && !vis_before.contains(q) {
                        assert(sides@.contains(a));
                        assert(sides@.contains(b));
                    } else if vis_before.contains(p) {
                        reveal(connected);
                        let path = choose|path: Seq<Position>|
                            #[trigger] is_open_path(gd, gc, d, path) && path.first() == p
                                && path.last() == q;
                        lemma_path_stays(gd, gc, d, path, vis_before);
                        assert(false);
                    } else {
                        lemma_connected_sym(gd, gc, d, p, q);
                        reveal(connected);
                        let path = choose|path: Seq<Position>|
                            #[trigger] is_open_path(gd, gc, d, path) && path.first() == q
                                && path.last() == p;
                        lemma_path_stays(gd, gc, d, path, vis_before);
                        assert(false);
                    }
                }
            }
        }
        proof {
            // the matrix now says exactly which face planes are joined by
            // an open walk
            assert forall|a: Side, b: Side| #[trigger]
                output.reach(a, b) == (a == b || faces_connected(gd, gc, d, a, b)) by {
                if a != b {
                    if faces_connected(gd, gc, d, a, b) {
                        reveal(faces_connected);
                        reveal(is_open_path);
                        let path = choose|path: Seq<Position>|
                            #[trigger] is_open_path(gd, gc, d, path) && on_face_plane(
                                d,
                                a,
                                path.first(),
                            ) && on_face_plane(d, b, path.last());
                        let p = path.first();
                        let q = path.last();
                        assert(open_cell(gd, gc, d, p) && open_cell(gd, gc, d, q)) by {
                            assert(path[0] == p && path[path.len() - 1] == q);
                        }
                        assert(on_boundary(d, p)) by {
                            lemma_plane_is_boundary(d, a, p);
                        }
                        assert(on_boundary(d, q)) by {
                            lemma_plane_is_boundary(d, b, q);
                        }
                        assert(visited@.contains(p));
                        assert(visited@.contains(q));
                        assert(connected(gd, gc, d, p, q)) by {
                            reveal(connected);
                        }
                        assert(output.reach(a, b));
                    }
                }
            }
        }
        output
    }
}

/// A plane cell of an in-bounds face lies on the boundary shell.
proof fn lemma_plane_is_boundary(d: int, s: Side, p: Position)
    requires
        in_chunk(d, p),
        on_face_plane(d, s, p),
    ensures
        on_boundary(d, p),
{
}

/// Whether `p` lies inside the chunk proper.
pub open spec fn in_chunk(depth: int, p: Position) -> bool {
    &&& 0 <= p.0 < depth
    &&& 0 <= p.1 < depth
    &&& 0 <= p.2 < depth
}

/// Whether `p` lies inside the chunk or its one-block halo.
pub open spec fn in_halo(depth: int, p: Position) -> bool {
    &&& -1 <= p.0 <= depth
    &&& -1 <= p.1 <= depth
    &&& -1 <= p.2 <= depth
}

/// Whether `p` lies on the chunk's outer boundary shell.
pub open spec fn on_boundary(depth: int, p: Position) -> bool {
    &&& in_chunk(depth, p)
    &&& (p.0 == 0 || p.0 == depth - 1 || p.1 == 0 || p.1 == depth - 1 || p.2 == 0 || p.2 == depth
        - 1)
}

/// Whether `u` and `v` are orthogonal neighbors: they differ by one along
/// exactly one axis.
pub open spec fn adjacent(u: Position, v: Position) -> bool {
    ||| v.0 - u.0 == 1 && v.1 == u.1 && v.2 == u.2
    ||| u.0 - v.0 == 1 && v.1 == u.1 && v.2 == u.2
    ||| v.0 == u.0 && v.1 - u.1 == 1 && v.2 == u.2
    ||| v.0 == u.0 && u.1 - v.1 == 1 && v.2 == u.2
    ||| v.0 == u.0 && v.1 == u.1 && v.2 - u.2 == 1
    ||| v.0 == u.0 && v.1 == u.1 && u.2 - v.2 == 1
}

/// An in-bounds position sight can occupy: inside the chunk and
/// transparent.
pub open spec fn open_cell(
    dict: Map<u32, Block>,
    chunk: Map<Position, u32>,
    depth: int,
    p: Position,
) -> bool {
    in_chunk(depth, p) && transparent_at(dict, chunk, p)
}

/// A 6-connected walk through the chunk's open interior.
#[verifier::opaque]
pub open spec fn is_open_path(
    dict: Map<u32, Block>,
    chunk: Map<Position, u32>,
    depth: int,
    path: Seq<Position>,
) -> bool {
    &&& path.len() > 0
    &&& forall|i: int| 0 <= i < path.len() ==> open_cell(dict, chunk, depth, #[trigger] path[i])
    &&& forall|i: int| 0 <= i < path.len() - 1 ==> adjacent(#[trigger] path[i], path[i + 1])
}

/// Whether sight can travel from cell `u` to cell `v` through open space.
#[verifier::opaque]
pub open spec fn connected(
    dict: Map<u32, Block>,
    chunk: Map<Position, u32>,
    depth: int,
    u: Position,
    v: Position,
) -> bool {
    exists|path: Seq<Position>|
        #[trigger] is_open_path(dict, chunk, depth, path) && path.first() == u && path.last() == v
}

/// The plane of in-bounds cells whose open space touches face `s`.
pub open spec fn on_face_plane(depth: int, s: Side, p: Position) -> bool {
    match s {
        Side::RIGHT => p.0 == 0,
        Side::LEFT => p.0 == depth - 1,
        Side::BOTTOM => p.1 == 0,
        Side::TOP => p.1 == depth - 1,
        Side::FRONT => p.2 == 0,
        Side::BACK => p.2 == depth - 1,
    }
}

/// Whether sight can pass from face `a` to face `b` through the chunk's
/// open interior: an open walk joins a cell on `a`'s plane to one on `b`'s.
#[verifier::opaque]
pub open spec fn faces_connected(
    dict: Map<u32, Block>,
    chunk: Map<Position, u32>,
    depth: int,
    a: Side,
    b: Side,
) -> bool {
    exists|path: Seq<Position>|
        #[trigger] is_open_path(dict, chunk, depth, path) && on_face_plane(depth, a, path.first())
            && on_face_plane(depth, b, path.last())
}

/// An open cell reaches itself.
proof fn lemma_connected_refl(
    dict: Map<u32, Block>,
    chunk: Map<Position, u32>,
    depth: int,
    u: Position,
)
    requires
        open_cell(dict, chunk, depth, u),
    ensures
        connected(dict, chunk, depth, u, u),
{
    reveal(is_open_path);
    reveal(connected);
    let path = seq![u];
    assert(is_open_path(dict, chunk, depth, path));
    assert(path.first() == u && path.last() == u);
}

/// A walk extends by one open neighbor.
proof fn lemma_connected_extend(
    dict: Map<u32, Block>,
    chunk: Map<Position, u32>,
    depth: int,
    u: Position,
    v: Position,
    w: Position,
)
    requires
        connected(dict, chunk, depth, u, v),
        adjacent(v, w),
        open_cell(dict, chunk, depth, w),
    ensures
        connected(dict, chunk, depth, u, w),
{
    reveal(is_open_path);
    reveal(connected);
    let path = choose|path: Seq<Position>|
        #[trigger] is_open_path(dict, chunk, depth, path) && path.first() == u && path.last() == v;
    let path2 = path.push(w);
    assert(is_open_path(dict, chunk, depth, path2)) by {
        assert forall|i: int| 0 <= i < path2.len() implies open_cell(
            dict,
            chunk,
            depth,
            #[trigger] path2[i],
        ) by {
            if i < path.len() {
                assert(path2[i] == path[i]);
            }
        }
        assert forall|i: int| 0 <= i < path2.len() - 1 implies adjacent(
            #[trigger] path2[i],
            path2[i + 1],
        ) by {
            if i < path.len() - 1 {
                assert(path2[i] == path[i] && path2[i + 1] == path[i + 1]);
            } else {
                assert(path2[i] == path.last() && path2[i + 1] == w);
            }
        }
    }
    assert(path2.first() == u && path2.last() == w);
}

/// Open walks reverse.
proof fn lemma_connected_sym(
    dict: Map<u32, Block>,
    chunk: Map<Position, u32>,
    depth: int,
    u: Position,
    v: Position,
)
    requires
        connected(dict, chunk, depth, u, v),
    ensures
        connected(dict, chunk, depth, v, u),
{
    reveal(is_open_path);
    reveal(connected);
    let path = choose|path: Seq<Position>|
        #[trigger] is_open_path(dict, chunk, depth, path) && path.first() == u && path.last() == v;
    let n = path.len() as int;
    let rev = Seq::new(n as nat, |i: int| path[n - 1 - i]);
    assert(is_open_path(dict, chunk, depth, rev)) by {
        assert forall|i: int| 0 <= i < rev.len() implies open_cell(
            dict,
            chunk,
            depth,
            #[trigger] rev[i],
        ) by {
            assert(rev[i] == path[n - 1 - i]);
        }
        assert forall|i: int| 0 <= i < rev.len() - 1 implies adjacent(
            #[trigger] rev[i],
            rev[i + 1],
        ) by {
            assert(rev[i] == path[n - 1 - i] && rev[i + 1] == path[n - 2 - i]);
            assert(adjacent(path[n - 2 - i], path[n - 1 - i]));
        }
    }
    assert(rev.first() == v && rev.last() == u);
}

/// Open walks concatenate.
proof fn lemma_connected_trans(
    dict: Map<u32, Block>,
    chunk: Map<Position, u32>,
    depth: int,
    u: Position,
    v: Position,
    w: Position,
)
    requires
        connected(dict, chunk, depth, u, v),
        connected(dict, chunk, depth, v, w),
    ensures
        connected(dict, chunk, depth, u, w),
{
    reveal(is_open_path);
    reveal(connected);
    let p1 = choose|path: Seq<Position>|
        #[trigger] is_open_path(dict, chunk, depth, path) && path.first() == u && path.last() == v;
    let p2 = choose|path: Seq<Position>|
        #[trigger] is_open_path(dict, chunk, depth, path) && path.first() == v && path.last() == w;
    let cat = p1 + p2.drop_first();
    assert(is_open_path(dict, chunk, depth, cat)) by {
        assert forall|i: int| 0 <= i < cat.len() implies open_cell(
            dict,
            chunk,
            depth,
            #[trigger] cat[i],
        ) by {
            if i < p1.len() {
                assert(cat[i] == p1[i]);
            } else {
                assert(cat[i] == p2[i - p1.len() + 1]);
            }
        }
        assert forall|i: int| 0 <= i < cat.len() - 1 implies adjacent(
            #[trigger] cat[i],
            cat[i + 1],
        ) by {
            if i + 1 < p1.len() {
                assert(cat[i] == p1[i] && cat[i + 1] == p1[i + 1]);
            } else if i + 1 == p1.len() {
                assert(cat[i] == p1[p1.len() - 1] && cat[i + 1] == p2[1]);
                assert(adjacent(p2[0], p2[1]));
            } else {
                assert(cat[i] == p2[i - p1.len() + 1] && cat[i + 1] == p2[i - p1.len() + 2]);
                assert(adjacent(p2[i - p1.len() + 1], p2[i - p1.len() + 2]));
            }
        }
    }
    assert(cat.last() == if p2.len() == 1 {
        p1.last()
    } else {
        p2.last()
    });
    assert(cat.first() == u && cat.last() == w);
}

/// Two faces whose planes both hold an open cell reachable from one hub
/// cell can see each other, in both directions.
proof fn lemma_faces_connected_via_hub(
    dict: Map<u32, Block>,
    chunk: Map<Position, u32>,
    depth: int,
    hub: Position,
    a: Side,
    b: Side,
    pa: Position,
    pb: Position,
)
    requires
        open_cell(dict, chunk, depth, pa),
        open_cell(dict, chunk, depth, pb),
        on_face_plane(depth, a, pa),
        on_face_plane(depth, b, pb),
        connected(dict, chunk, depth, hub, pa),
        connected(dict, chunk, depth, hub, pb),
    ensures
        faces_connected(dict, chunk, depth, a, b),
        faces_connected(dict, chunk, depth, b, a),
{
    reveal(is_open_path);
    reveal(connected);
    reveal(faces_connected);
    lemma_connected_sym(dict, chunk, depth, hub, pa);
    lemma_connected_trans(dict, chunk, depth, pa, hub, pb);
    let path = choose|path: Seq<Position>|
        #[trigger] is_open_path(dict, chunk, depth, path) && path.first() == pa && path.last()
            == pb;
    assert(faces_connected(dict, chunk, depth, a, b));
    lemma_connected_sym(dict, chunk, depth, pa, pb);
    let back = choose|path: Seq<Position>|
        #[trigger] is_open_path(dict, chunk, depth, path) && path.first() == pb && path.last()
            == pa;
    assert(faces_connected(dict, chunk, depth, b, a));
}

/// The plane cell of face `s` nearest the origin corner.
pub open spec fn plane_corner(depth: int, s: Side) -> Position {
    match s {
        Side::RIGHT => (0i32, 0i32, 0i32),
        Side::BOTTOM => (0i32, 0i32, 0i32),
        Side::FRONT => (0i32, 0i32, 0i32),
        Side::LEFT => ((depth - 1) as i32, 0i32, 0i32),
        Side::TOP => (0i32, (depth - 1) as i32, 0i32),
        Side::BACK => (0i32, 0i32, (depth - 1) as i32),
    }
}

/// In a chunk that holds nothing, the origin corner reaches a cell on every
/// face's plane by walking one axis.
proof fn lemma_corner_reaches(dict: Map<u32, Block>, depth: int, s: Side)
    requires
        1 <= depth <= 127,
    ensures
        open_cell(dict, Map::<Position, u32>::empty(), depth, plane_corner(depth, s)),
        on_face_plane(depth, s, plane_corner(depth, s)),
        connected(
            dict,
            Map::<Position, u32>::empty(),
            depth,
            (0i32, 0i32, 0i32),
            plane_corner(depth, s),
        ),
{
    reveal(is_open_path);
    reveal(connected);
    let gc = Map::<Position, u32>::empty();
    let target = plane_corner(depth, s);
    let path: Seq<Position> = if s == Side::LEFT {
        Seq::new(depth as nat, |i: int| (i as i32, 0i32, 0i32))
    } else if s == Side::TOP {
        Seq::new(depth as nat, |i: int| (0i32, i as i32, 0i32))
    } else if s == Side::BACK {
        Seq::new(depth as nat, |i: int| (0i32, 0i32, i as i32))
    } else {
        seq![(0i32, 0i32, 0i32)]
    };
    assert(is_open_path(dict, gc, depth, path)) by {
        assert forall|i: int| 0 <= i < path.len() implies open_cell(
            dict,
            gc,
            depth,
            #[trigger] path[i],
        ) by {
            assert(!gc.contains_key(path[i]));
        }
        assert forall|i: int| 0 <= i < path.len() - 1 implies adjacent(
            #[trigger] path[i],
            path[i + 1],
        ) by {}
    }
    assert(path.first() == (0i32, 0i32, 0i32));
    assert(path.last() == target);
}

/// In a fully empty chunk every pair of faces sees each other: an open walk
/// through the untouched interior joins any two boundary planes.
pub proof fn lemma_empty_chunk_faces_connected(
    dict: Map<u32, Block>,
    depth: int,
    a: Side,
    b: Side,
)
    requires
        1 <= depth <= 127,
    ensures
        faces_connected(dict, Map::<Position, u32>::empty(), depth, a, b),
{
    let gc = Map::<Position, u32>::empty();
    lemma_corner_reaches(dict, depth, a);
    lemma_corner_reaches(dict, depth, b);
    lemma_faces_connected_via_hub(
        dict,
        gc,
        depth,
        (0i32, 0i32, 0i32),
        a,
        b,
        plane_corner(depth, a),
        plane_corner(depth, b),
    );
}

/// A walk whose endpoints lie on opposite sides of the plane `x == wx`
/// steps onto that plane: the axis changes by one cell at a time.
proof fn lemma_walk_crosses_plane(
    dict: Map<u32, Block>,
    chunk: Map<Position, u32>,
    depth: int,
    path: Seq<Position>,
    wx: int,
)
    requires
        is_open_path(dict, chunk, depth, path),
        (path.first().0 > wx && path.last().0 < wx) || (path.first().0 < wx && path.last().0
            > wx),
    ensures
        exists|i: int| 0 <= i < path.len() && (#[trigger] path[i]).0 == wx,
    decreases path.len(),
{
    reveal(is_open_path);
    assert(path.len() >= 2);
    assert(adjacent(path[0], path[1]));
    if path[1].0 == wx {
        assert(path[1].0 == wx);
    } else {
        let rest = path.drop_first();
        assert(is_open_path(dict, chunk, depth, rest)) by {
            assert forall|i: int| 0 <= i < rest.len() implies open_cell(
                dict,
                chunk,
                depth,
                #[trigger] rest[i],
            ) by {
                assert(rest[i] == path[i + 1]);
            }
            assert forall|i: int| 0 <= i < rest.len() - 1 implies adjacent(
                #[trigger] rest[i],
                rest[i + 1],
            ) by {
                assert(rest[i] == path[i + 1] && rest[i + 1] == path[i + 2]);
                assert(adjacent(path[i + 1], path[i + 2]));
            }
        }
        assert(rest.first() == path[1] && rest.last() == path.last());
        lemma_walk_crosses_plane(dict, chunk, depth, rest, wx);
        let i = choose|i: int| 0 <= i < rest.len() && (#[trigger] rest[i]).0 == wx;
        assert(path[i + 1].0 == wx);
    }
}

/// An opaque wall spanning the full plane `x == wx` separates the two faces
/// it stands between: sight cannot pass between them in either direction.
pub proof fn lemma_wall_separates(
    dict: Map<u32, Block>,
    chunk: Map<Position, u32>,
    depth: int,
    wx: int,
)
    requires
        0 <= wx < depth,
        forall|y: int, z: int|
            0 <= y < depth && 0 <= z < depth ==> !(#[trigger] transparent_at(
                dict,
                chunk,
                ((wx as i32, y as i32, z as i32)),
            )),
    ensures
        !faces_connected(dict, chunk, depth, Side::LEFT, Side::RIGHT),
        !faces_connected(dict, chunk, depth, Side::RIGHT, Side::LEFT),
{
    reveal(faces_connected);
    reveal(is_open_path);
    if faces_connected(dict, chunk, depth, Side::LEFT, Side::RIGHT) {
        let path = choose|path: Seq<Position>|
            #[trigger] is_open_path(dict, chunk, depth, path) && on_face_plane(
                depth,
                Side::LEFT,
                path.first(),
            ) && on_face_plane(depth, Side::RIGHT, path.last());
        if path.first().0 == wx {
            lemma_wall_cell_closed(dict, chunk, depth, wx, path.first());
            assert(open_cell(dict, chunk, depth, path[0]));
        } else if path.last().0 == wx {
            lemma_wall_cell_closed(dict, chunk, depth, wx, path.last());
            assert(open_cell(dict, chunk, depth, path[path.len() - 1]));
        } else if path.first().0 == path.last().0 {
            assert(depth - 1 == 0);
            assert(path.first().0 == wx);
        } else {
            lemma_walk_crosses_plane(dict, chunk, depth, path, wx);
            let i = choose|i: int| 0 <= i < path.len() && (#[trigger] path[i]).0 == wx;
            lemma_wall_cell_closed(dict, chunk, depth, wx, path[i]);
            assert(open_cell(dict, chunk, depth, path[i]));
        }
        assert(false);
    }
    if faces_connected(dict, chunk, depth, Side::RIGHT, Side::LEFT) {
        let path = choose|path: Seq<Position>|
            #[trigger] is_open_path(dict, chunk, depth, path) && on_face_plane(
                depth,
                Side::RIGHT,
                path.first(),
            ) && on_face_plane(depth, Side::LEFT, path.last());
        if path.first().0 == wx {
            lemma_wall_cell_closed(dict, chunk, depth, wx, path.first());
            assert(open_cell(dict, chunk, depth, path[0]));
        } else if path.last().0 == wx {
            lemma_wall_cell_closed(dict, chunk, depth, wx, path.last());
            assert(open_cell(dict, chunk, depth, path[path.len() - 1]));
        } else if path.first().0 == path.last().0 {
            assert(depth - 1 == 0);
            assert(path.first().0 == wx);
        } else {
            lemma_walk_crosses_plane(dict, chunk, depth, path, wx);
            let i = choose|i: int| 0 <= i < path.len() && (#[trigger] path[i]).0 == wx;
            lemma_wall_cell_closed(dict, chunk, depth, wx, path[i]);
            assert(open_cell(dict, chunk, depth, path[i]));
        }
        assert(false);
    }
}

/// An in-chunk cell on the wall plane is not open.
proof fn lemma_wall_cell_closed(
    dict: Map<u32, Block>,
    chunk: Map<Position, u32>,
    depth: int,
    wx: int,
    p: Position,
)
    requires
        0 <= wx < depth,
        forall|y: int, z: int|
            0 <= y < depth && 0 <= z < depth ==> !(#[trigger] transparent_at(
                dict,
                chunk,
                ((wx as i32, y as i32, z as i32)),
            )),
        in_chunk(depth, p),
        p.0 == wx,
    ensures
        !open_cell(dict, chunk, depth, p),
{
    assert(p == ((wx as i32, p.1 as int as i32, p.2 as int as i32)));
    assert(!transparent_at(dict, chunk, ((wx as i32, p.1 as int as i32, p.2 as int as i32))));
}

/// The plane cell of face `s` nearest the base of the column `x == x0`.
pub open spec fn column_corner(depth: int, x0: int, s: Side) -> Position {
    match s {
        Side::TOP => (x0 as i32, (depth - 1) as i32, 0i32),
        Side::BACK => (x0 as i32, 0i32, (depth - 1) as i32),
        _ => (x0 as i32, 0i32, 0i32),
    }
}

/// Within a fully transparent x-slice, the slice's base corner reaches a
/// cell on every face plane that meets the slice.
proof fn lemma_column_reaches(
    dict: Map<u32, Block>,
    chunk: Map<Position, u32>,
    depth: int,
    x0: int,
    s: Side,
)
    requires
        1 <= depth <= 127,
        0 <= x0 < depth,
        s == Side::LEFT ==> x0 == depth - 1,
        s == Side::RIGHT ==> x0 == 0,
        forall|p: Position|
            in_chunk(depth, p) && p.0 == x0 ==> #[trigger] transparent_at(dict, chunk, p),
    ensures
        open_cell(dict, chunk, depth, column_corner(depth, x0, s)),
        on_face_plane(depth, s, column_corner(depth, x0, s)),
        connected(dict, chunk, depth, (x0 as i32, 0i32, 0i32), column_corner(depth, x0, s)),
{
    reveal(is_open_path);
    reveal(connected);
    let corner = column_corner(depth, x0, s);
    let path: Seq<Position> = if s == Side::TOP {
        Seq::new(depth as nat, |i: int| (x0 as i32, i as i32, 0i32))
    } else if s == Side::BACK {
        Seq::new(depth as nat, |i: int| (x0 as i32, 0i32, i as i32))
    } else {
        seq![(x0 as i32, 0i32, 0i32)]
    };
    assert(is_open_path(dict, chunk, depth, path)) by {
        assert forall|i: int| 0 <= i < path.len() implies open_cell(
            dict,
            chunk,
            depth,
            #[trigger] path[i],
        ) by {
            if s == Side::TOP {
                assert(path[i] == (x0 as i32, i as i32, 0i32));
            } else if s == Side::BACK {
                assert(path[i] == (x0 as i32, 0i32, i as i32));
            } else {
                assert(path[i] == (x0 as i32, 0i32, 0i32));
            }
            assert(in_chunk(depth, path[i]) && path[i].0 == x0);
            assert(transparent_at(dict, chunk, path[i]));
        }
        assert forall|i: int| 0 <= i < path.len() - 1 implies adjacent(
            #[trigger] path[i],
            path[i + 1],
        ) by {}
    }
    assert(path.first() == (x0 as i32, 0i32, 0i32));
    assert(path.last() == corner);
}

/// A chunk holding blocks only on the wall plane `x == wx` keeps every pair
/// of faces reachable except the two the wall stands between: the slices on
/// either side of the wall are untouched and join their own faces.
pub proof fn lemma_wall_keeps_other_faces(
    dict: Map<u32, Block>,
    chunk: Map<Position, u32>,
    depth: int,
    wx: int,
    a: Side,
    b: Side,
)
    requires
        1 <= depth <= 127,
        1 <= wx <= depth - 2,
        forall|p: Position| #[trigger] chunk.contains_key(p) ==> p.0 == wx,
        !(a == Side::LEFT && b == Side::RIGHT),
        !(a == Side::RIGHT && b == Side::LEFT),
    ensures
        faces_connected(dict, chunk, depth, a, b),
{
    assert forall|p: Position|
        in_chunk(depth, p) && p.0 == 0 implies #[trigger] transparent_at(dict, chunk, p) by {
        if chunk.contains_key(p) {
            assert(p.0 == wx);
            assert(false);
        }
    }
    assert forall|p: Position|
        in_chunk(depth, p) && p.0 == depth - 1 implies #[trigger] transparent_at(
        dict,
        chunk,
        p,
    ) by {
        if chunk.contains_key(p) {
            assert(p.0 == wx);
            assert(false);
        }
    }
    if a != Side::LEFT && b != Side::LEFT {
        lemma_column_reaches(dict, chunk, depth, 0, a);
        lemma_column_reaches(dict, chunk, depth, 0, b);
        lemma_faces_connected_via_hub(
            dict,
            chunk,
            depth,
            (0i32, 0i32, 0i32),
            a,
            b,
            column_corner(depth, 0, a),
            column_corner(depth, 0, b),
        );
    } else {
        lemma_column_reaches(dict, chunk, depth, depth - 1, a);
        lemma_column_reaches(dict, chunk, depth, depth - 1, b);
        lemma_faces_connected_via_hub(
            dict,
            chunk,
            depth,
            ((depth - 1) as i32, 0i32, 0i32),
            a,
            b,
            column_corner(depth, depth - 1, a),
            column_corner(depth, depth - 1, b),
        );
    }
}

/// A walk that starts inside an adjacency-closed collection of cells ends
/// inside it.
proof fn lemma_path_stays(
    dict: Map<u32, Block>,
    chunk: Map<Position, u32>,
    depth: int,
    path: Seq<Position>,
    cells: Seq<Position>,
)
    requires
        is_open_path(dict, chunk, depth, path),
        cells.contains(path.first()),
        forall|p: Position, q: Position|
            cells.contains(p) && open_cell(dict, chunk, depth, p) && open_cell(
                dict,
                chunk,
                depth,
                q,
            ) && #[trigger] adjacent(p, q) ==> cells.contains(q),
    ensures
        cells.contains(path.last()),
    decreases path.len(),
{
    reveal(is_open_path);
    if path.len() > 1 {
        let rest = path.drop_first();
        assert(adjacent(path[0], path[1]));
        assert(open_cell(dict, chunk, depth, path[0]) && open_cell(dict, chunk, depth, path[1]));
        assert(cells.contains(path[1]));
        assert(is_open_path(dict, chunk, depth, rest)) by {
            assert forall|i: int| 0 <= i < rest.len() implies open_cell(
                dict,
                chunk,
                depth,
                #[trigger] rest[i],
            ) by {
                assert(rest[i] == path[i + 1]);
            }
            assert forall|i: int| 0 <= i < rest.len() - 1 implies adjacent(
                #[trigger] rest[i],
                rest[i + 1],
            ) by {
                assert(rest[i] == path[i + 1] && rest[i + 1] == path[i + 2]);
                assert(adjacent(path[i + 1], path[i + 2]));
            }
        }
        assert(rest.first() == path[1]);
        lemma_path_stays(dict, chunk, depth, rest, cells);
        assert(rest.last() == path.last());
    }
}

/// Whether every boundary-shell position of the chunk is opaque: no fill
/// can start, so no face can see any other.
pub open spec fn boundary_sealed(dict: Map<u32, crate::chunk::block::Block>, chunk: Map<Position, u32>, depth: int) -> bool {
    forall|p: Position| on_boundary(depth, p) ==> !transparent_at(dict, chunk, p)
}

/// The executable `==` of position triples is mathematical equality.
pub proof fn lemma_triple_eq_reflects()
    ensures
        eq_reflects::<(i32, i32, i32)>(),
{
    assert forall|a: (i32, i32, i32), b: (i32, i32, i32)| #[trigger]
        a.eq_spec(&b) <==> a == b by {
        if a.eq_spec(&b) {
            assert(a.0 == b.0 && a.1 == b.1 && a.2 == b.2);
        }
    }
}

/// A halo position flattened to one base-(depth + 2) number.
pub open spec fn halo_index(depth: int, p: Position) -> int {
    (p.0 + 1) * ((depth + 2) * (depth + 2)) + (p.1 + 1) * (depth + 2) + (p.2 + 1)
}

proof fn lemma_halo_index_digits(depth: int, p: Position)
    requires
        depth >= 1,
        in_halo(depth, p),
    ensures
        0 <= halo_index(depth, p) < (depth + 2) * (depth + 2) * (depth + 2),
        halo_index(depth, p) % (depth + 2) == p.2 + 1,
        (halo_index(depth, p) / (depth + 2)) % (depth + 2) == p.1 + 1,
        (halo_index(depth, p) / (depth + 2)) / (depth + 2) == p.0 + 1,
{
    let b = depth + 2;
    let hi = (p.0 + 1) * b + (p.1 + 1);
    assert(0 <= hi < b * b && halo_index(depth, p) == hi * b + (p.2 + 1) && 0 <= halo_index(
        depth,
        p,
    ) < b * b * b) by (nonlinear_arith)
        requires
            b >= 3,
            hi == (p.0 + 1) * b + (p.1 + 1),
            halo_index(depth, p) == (p.0 + 1) * (b * b) + (p.1 + 1) * b + (p.2 + 1),
            0 <= p.0 + 1 < b,
            0 <= p.1 + 1 < b,
            0 <= p.2 + 1 < b,
    ;
    lemma_fundamental_div_mod_converse(halo_index(depth, p), b, hi, p.2 + 1);
    lemma_fundamental_div_mod_converse(hi, b, p.0 + 1, p.1 + 1);
}

/// Distinct halo positions have distinct flattened indices, so a distinct
/// collection of them is no larger than the halo volume.
proof fn lemma_halo_seq_len(s: Seq<Position>, depth: int)
    requires
        depth >= 1,
        forall|i: int, j: int| 0 <= i < j < s.len() ==> s[i] != s[j],
        forall|p: Position| #[trigger] s.contains(p) ==> in_halo(depth, p),
    ensures
        s.len() <= (depth + 2) * (depth + 2) * (depth + 2),
{
    let n = (depth + 2) * (depth + 2) * (depth + 2);
    assert(n >= 0) by (nonlinear_arith)
        requires
            depth >= 1,
            n == (depth + 2) * (depth + 2) * (depth + 2),
    ;
    assert(forall|i: int| 0 <= i < s.len() ==> s.contains(#[trigger] s[i]));
    let f = |p: Position| halo_index(depth, p);
    assert forall|i: int, j: int| 0 <= i < j < s.len() implies f(s[i]) != f(s[j]) by {
        lemma_halo_index_digits(depth, s[i]);
        lemma_halo_index_digits(depth, s[j]);
    }
    assert forall|i: int| 0 <= i < s.len() implies 0 <= #[trigger] f(s[i]) < n by {
        lemma_halo_index_digits(depth, s[i]);
    }
    lemma_distinct_seq_len(s, f, n);
}

/// The six stack entries a spreading position pushes, in push order.
pub open spec fn step_neighbors(pos: Position) -> Seq<Position> {
    seq![
        ((pos.0 + 1) as i32, pos.1, pos.2),
        ((pos.0 - 1) as i32, pos.1, pos.2),
        (pos.0, (pos.1 + 1) as i32, pos.2),
        (pos.0, (pos.1 - 1) as i32, pos.2),
        (pos.0, pos.1, (pos.2 + 1) as i32),
        (pos.0, pos.1, (pos.2 - 1) as i32),
    ]
}

/// Every neighbor of an in-chunk position is one of its six pushes.
proof fn lemma_neighbors_cover(d: int, pos: Position, q: Position)
    requires
        1 <= d <= 127,
        in_chunk(d, pos),
        adjacent(pos, q),
    ensures
        step_neighbors(pos).contains(q),
{
    if q.0 - pos.0 == 1 && q.1 == pos.1 && q.2 == pos.2 {
        assert(step_neighbors(pos)[0] == q);
    } else if pos.0 - q.0 == 1 && q.1 == pos.1 && q.2 == pos.2 {
        assert(step_neighbors(pos)[1] == q);
    } else if q.0 == pos.0 && q.1 - pos.1 == 1 && q.2 == pos.2 {
        assert(step_neighbors(pos)[2] == q);
    } else if q.0 == pos.0 && pos.1 - q.1 == 1 && q.2 == pos.2 {
        assert(step_neighbors(pos)[3] == q);
    } else if q.0 == pos.0 && q.1 == pos.1 && q.2 - pos.2 == 1 {
        assert(step_neighbors(pos)[4] == q);
    } else {
        assert(step_neighbors(pos)[5] == q);
    }
}

/// Closure-except-stack carries over one iteration that does not spread:
/// the popped position is merged and nothing else changes.
proof fn lemma_closure_no_spread(
    gd: Map<u32, Block>,
    gc: Map<Position, u32>,
    d: int,
    vis0: Seq<Position>,
    vis1: Seq<Position>,
    st0: Seq<Position>,
    st1: Seq<Position>,
    pos: Position,
)
    requires
        st0.len() > 0,
        st0[0] == pos,
        st1 == st0.drop_first(),
        forall|x: Position| #[trigger] vis1.contains(x) <==> vis0.contains(x) || x == pos,
        !open_cell(gd, gc, d, pos) || vis0.contains(pos),
        forall|p: Position, q: Position|
            vis0.contains(p) && open_cell(gd, gc, d, p) && open_cell(gd, gc, d, q)
                && #[trigger] adjacent(p, q) ==> vis0.contains(q) || st0.contains(q),
    ensures
        forall|p: Position, q: Position|
            vis1.contains(p) && open_cell(gd, gc, d, p) && open_cell(gd, gc, d, q)
                && #[trigger] adjacent(p, q) ==> vis1.contains(q) || st1.contains(q),
{
    assert forall|p: Position, q: Position|
        vis1.contains(p) && open_cell(gd, gc, d, p) && open_cell(gd, gc, d, q)
            && #[trigger] adjacent(p, q) implies vis1.contains(q) || st1.contains(q) by {
        assert(vis0.contains(p));
        if !vis0.contains(q) {
            let k = choose|k: int| 0 <= k < st0.len() && st0[k] == q;
            if k == 0 {
                assert(vis1.contains(pos));
            } else {
                assert(st1[k - 1] == q);
            }
        }
    }
}

/// Closure-except-stack carries over one spreading iteration: the popped
/// position is merged and its six neighbors enter the stack.
proof fn lemma_closure_spread(
    gd: Map<u32, Block>,
    gc: Map<Position, u32>,
    d: int,
    vis0: Seq<Position>,
    vis1: Seq<Position>,
    st0: Seq<Position>,
    st1: Seq<Position>,
    pos: Position,
)
    requires
        1 <= d <= 127,
        st0.len() > 0,
        st0[0] == pos,
        st1 == st0.drop_first() + step_neighbors(pos),
        forall|x: Position| #[trigger] vis1.contains(x) <==> vis0.contains(x) || x == pos,
        open_cell(gd, gc, d, pos),
        forall|p: Position, q: Position|
            vis0.contains(p) && open_cell(gd, gc, d, p) && open_cell(gd, gc, d, q)
                && #[trigger] adjacent(p, q) ==> vis0.contains(q) || st0.contains(q),
    ensures
        forall|p: Position, q: Position|
            vis1.contains(p) && open_cell(gd, gc, d, p) && open_cell(gd, gc, d, q)
                && #[trigger] adjacent(p, q) ==> vis1.contains(q) || st1.contains(q),
{
    assert forall|p: Position, q: Position|
        vis1.contains(p) && open_cell(gd, gc, d, p) && open_cell(gd, gc, d, q)
            && #[trigger] adjacent(p, q) implies vis1.contains(q) || st1.contains(q) by {
        if p == pos {
            lemma_neighbors_cover(d, pos, q);
            let k = choose|k: int| 0 <= k < step_neighbors(pos).len() && step_neighbors(pos)[k]
                == q;
            assert(st1[st0.len() - 1 + k] == q);
        } else {
            assert(vis0.contains(p));
            if !vis0.contains(q) {
                let k = choose|k: int| 0 <= k < st0.len() && st0[k] == q;
                if k == 0 {
                    assert(vis1.contains(pos));
                } else {
                    assert(st1[k - 1] == q);
                }
            }
        }
    }
}

/// Every stack entry is the start or sits beside a cell the fill reached;
/// the fact survives popping the front and, when spreading, pushing the six
/// neighbors.
proof fn lemma_stack_sources(
    gd: Map<u32, Block>,
    gc: Map<Position, u32>,
    d: int,
    start: Position,
    st0: Seq<Position>,
    st1: Seq<Position>,
    pos: Position,
    spread: bool,
)
    requires
        1 <= d <= 127,
        st0.len() > 0,
        st0[0] == pos,
        spread ==> st1 == st0.drop_first() + step_neighbors(pos) && open_cell(gd, gc, d, pos)
            && connected(gd, gc, d, start, pos),
        !spread ==> st1 == st0.drop_first(),
        forall|i: int|
            0 <= i < st0.len() ==> (#[trigger] st0[i]) == start || exists|q: Position|
                open_cell(gd, gc, d, q) && connected(gd, gc, d, start, q) && #[trigger] adjacent(
                    q,
                    st0[i],
                ),
    ensures
        forall|i: int|
            0 <= i < st1.len() ==> (#[trigger] st1[i]) == start || exists|q: Position|
                open_cell(gd, gc, d, q) && connected(gd, gc, d, start, q) && #[trigger] adjacent(
                    q,
                    st1[i],
                ),
{
    assert forall|i: int|
        0 <= i < st1.len() implies (#[trigger] st1[i]) == start || exists|q: Position|
        open_cell(gd, gc, d, q) && connected(gd, gc, d, start, q) && #[trigger] adjacent(
            q,
            st1[i],
        ) by {
        if i < st0.len() - 1 {
            assert(st1[i] == st0[i + 1]);
        } else {
            assert(spread);
            let k = i - (st0.len() - 1);
            assert(st1[i] == step_neighbors(pos)[k]);
            assert(in_chunk(d, pos));
            if k == 0 {
                assert(st1[i] == ((pos.0 + 1) as i32, pos.1, pos.2));
                assert(adjacent(pos, st1[i]));
            } else if k == 1 {
                assert(st1[i] == ((pos.0 - 1) as i32, pos.1, pos.2));
                assert(adjacent(pos, st1[i]));
            } else if k == 2 {
                assert(st1[i] == (pos.0, (pos.1 + 1) as i32, pos.2));
                assert(adjacent(pos, st1[i]));
            } else if k == 3 {
                assert(st1[i] == (pos.0, (pos.1 - 1) as i32, pos.2));
                assert(adjacent(pos, st1[i]));
            } else if k == 4 {
                assert(st1[i] == (pos.0, pos.1, (pos.2 + 1) as i32));
                assert(adjacent(pos, st1[i]));
            } else {
                assert(st1[i] == (pos.0, pos.1, (pos.2 - 1) as i32));
                assert(adjacent(pos, st1[i]));
            }
        }
    }
}

/// The start cell is either merged or still somewhere on the stack after
/// the front is popped; pushes only help.
proof fn lemma_start_tracked(
    vis1: Seq<Position>,
    st0: Seq<Position>,
    st1: Seq<Position>,
    start: Position,
    pos: Position,
    pushed: Seq<Position>,
)
    requires
        st0.len() > 0,
        st0[0] == pos,
        st1 == st0.drop_first() + pushed,
        vis1.contains(start) || st0.contains(start),
        vis1.contains(pos),
    ensures
        vis1.contains(start) || st1.contains(start),
{
    if !vis1.contains(start) {
        let k = choose|k: int| 0 <= k < st0.len() && st0[k] == start;
        assert(k != 0);
        assert(st1[k - 1] == start);
    }
}

/// Flood-fills 6-connected transparent space from `start_pos`, recording
/// every boundary face the fill touches. Visited positions are taken out of
/// the seed set so each pocket is filled once; positions outside the chunk
/// terminate the fill without recursing further. The returned faces are
/// exactly those whose plane the open region around `start_pos` reaches,
/// and the fill leaves the visited set closed under open adjacency.
#[verifier::rlimit(100)]
fn flood_fill(
    config: &ChunkConfig,
    chunk_data: &ChunkData,
    start_pos: &Position,
    fill_seeds: &mut VecSet<Position>,
    visited: &mut VecSet<Position>,
) -> (output: Vec<Side>)
    requires
        config.wf(),
        chunk_data.wf(),
        old(fill_seeds).wf(),
        old(visited).wf(),
        open_cell(config.dict@, chunk_data@, config.depth as int, *start_pos),
        !old(visited)@.contains(*start_pos),
        forall|p: Position| #[trigger]
            old(fill_seeds)@.contains(p) ==> in_halo(config.depth as int, p),
        forall|p: Position| #[trigger] old(visited)@.contains(p) ==> in_halo(config.depth as int, p),
        forall|p: Position, q: Position|
            old(visited)@.contains(p) && open_cell(config.dict@, chunk_data@, config.depth as int, p)
                && open_cell(config.dict@, chunk_data@, config.depth as int, q)
                && #[trigger] adjacent(p, q) ==> old(visited)@.contains(q),
        forall|p: Position| #[trigger]
            old(fill_seeds)@.contains(p) ==> !old(visited)@.contains(p),
    ensures
        final(fill_seeds).wf(),
        final(visited).wf(),
        forall|p: Position| #[trigger]
            final(fill_seeds)@.contains(p) ==> old(fill_seeds)@.contains(p),
        forall|p: Position| #[trigger] final(visited)@.contains(p) ==> in_halo(config.depth as int, p),
        final(fill_seeds)@.len() <= old(fill_seeds)@.len(),
        final(visited)@.contains(*start_pos),
        forall|p: Position| #[trigger] old(visited)@.contains(p) ==> final(visited)@.contains(p),
        // every cell this fill reached is joined to its start
        forall|p: Position| #[trigger]
            final(visited)@.contains(p) && !old(visited)@.contains(p) && open_cell(
                config.dict@,
                chunk_data@,
                config.depth as int,
                p,
            ) ==> connected(config.dict@, chunk_data@, config.depth as int, *start_pos, p),
        // every face plane this fill reached is listed
        forall|p: Position, t: Side|
            final(visited)@.contains(p) && !old(visited)@.contains(p) && open_cell(
                config.dict@,
                chunk_data@,
                config.depth as int,
                p,
            ) && #[trigger] on_face_plane(config.depth as int, t, p) ==> output@.contains(t),
        // every listed face is reached by some cell of this fill
        forall|t: Side| #[trigger]
            output@.contains(t) ==> exists|p: Position|
                (#[trigger] on_face_plane(config.depth as int, t, p)) && open_cell(
                    config.dict@,
                    chunk_data@,
                    config.depth as int,
                    p,
                ) && connected(config.dict@, chunk_data@, config.depth as int, *start_pos, p),
        // the visited set stays closed under open adjacency
        forall|p: Position, q: Position|
            final(visited)@.contains(p) && open_cell(config.dict@, chunk_data@, config.depth as int, p)
                && open_cell(config.dict@, chunk_data@, config.depth as int, q)
                && #[trigger] adjacent(p, q) ==> final(visited)@.contains(q),
        forall|p: Position| #[trigger]
            final(fill_seeds)@.contains(p) ==> !final(visited)@.contains(p),
        forall|p: Position|
            old(fill_seeds)@.contains(p) && !(#[trigger] final(fill_seeds)@.contains(p))
                ==> final(visited)@.contains(p),
{
    let depth = config.depth;
    let ghost gd = config.dict@;
    let ghost gc = chunk_data@;
    let ghost d: int = depth as int;
    let ghost start: Position = *start_pos;
    let ghost bound: int = (d + 2) * (d + 2) * (d + 2);
    let mut output: Vec<Side> = Vec::new();
    let mut stack: VecDeque<Position> = VecDeque::new();
    stack.push_back(*start_pos);
    proof {
        lemma_triple_eq_reflects();
        lemma_halo_seq_len(visited@, d);
        assert(stack@[0] == start);
    }

    while stack.len() > 0
        invariant
            config.wf(),
            chunk_data.wf(),
            depth == config.depth,
            gd == config.dict@,
            gc == chunk_data@,
            d == depth as int,
            start == *start_pos,
            open_cell(gd, gc, d, start),
            bound == (d + 2) * (d + 2) * (d + 2),
            fill_seeds.wf(),
            visited.wf(),
            eq_reflects::<Position>(),
            forall|i: int| 0 <= i < stack@.len() ==> in_halo(d, #[trigger] stack@[i]),
            forall|p: Position| #[trigger]
                fill_seeds@.contains(p) ==> old(fill_seeds)@.contains(p),
            forall|p: Position| #[trigger] visited@.contains(p) ==> in_halo(d, p),
            fill_seeds@.len() <= old(fill_seeds)@.len(),
            visited@.len() <= bound,
            visited@.contains(start) || stack@.contains(start),
            forall|p: Position| #[trigger] old(visited)@.contains(p) ==> visited@.contains(p),
            forall|p: Position| #[trigger]
                visited@.contains(p) && !old(visited)@.contains(p) && open_cell(gd, gc, d, p)
                    ==> connected(gd, gc, d, start, p),
            forall|i: int|
                0 <= i < stack@.len() ==> (#[trigger] stack@[i]) == start || exists|q: Position|
                    open_cell(gd, gc, d, q) && connected(gd, gc, d, start, q) && #[trigger] adjacent(
                        q,
                        stack@[i],
                    ),
            forall|p: Position, t: Side|
                visited@.contains(p) && !old(visited)@.contains(p) && open_cell(gd, gc, d, p)
                    && #[trigger] on_face_plane(d, t, p) ==> output@.contains(t),
            forall|t: Side| #[trigger]
                output@.contains(t) ==> exists|p: Position|
                    (#[trigger] on_face_plane(d, t, p)) && open_cell(gd, gc, d, p) && connected(
                        gd,
                        gc,
                        d,
                        start,
                        p,
                    ),
            forall|p: Position, q: Position|
                visited@.contains(p) && open_cell(gd, gc, d, p) && open_cell(gd, gc, d, q)
                    && #[trigger] adjacent(p, q) ==> visited@.contains(q) || stack@.contains(q),
            forall|p: Position| #[trigger] fill_seeds@.contains(p) ==> !visited@.contains(p),
            forall|p: Position|
                old(fill_seeds)@.contains(p) && !(#[trigger] fill_seeds@.contains(p))
                    ==> visited@.contains(p),
        decreases bound - visited@.len(), stack@.len(),
    {
        let ghost st0 = stack@;
        let ghost vis0 = visited@;
        let pos = match stack.pop_front() {
            Some(p) => p,
            None => vstd::pervasive::unreached(),
        };
        proof {
            assert(pos == st0[0]);
            assert(stack@ == st0.drop_first());
        }

        // cut this position from the future seeds: it is handled now
        fill_seeds.remove(&pos);

        if visited.contains(&pos) {
            proof {
                assert(stack@ =~= st0.drop_first() + Seq::<Position>::empty());
                lemma_stack_sources(gd, gc, d, start, st0, stack@, pos, false);
                lemma_start_tracked(visited@, st0, stack@, start, pos, Seq::<Position>::empty());
                lemma_closure_no_spread(gd, gc, d, visited@, visited@, st0, stack@, pos);
            }
            continue ;
        }
        proof {
            // this position is reached from the start
            if pos == start {
                lemma_connected_refl(gd, gc, d, start);
            } else {
                assert(st0[0] == start || exists|q: Position|
                    open_cell(gd, gc, d, q) && connected(gd, gc, d, start, q) && #[trigger] adjacent(
                        q,
                        st0[0],
                    ));
                let q = choose|q: Position|
                    open_cell(gd, gc, d, q) && connected(gd, gc, d, start, q) && #[trigger] adjacent(
                        q,
                        st0[0],
                    );
                if open_cell(gd, gc, d, pos) {
                    lemma_connected_extend(gd, gc, d, start, q, pos);
                }
            }
        }
        visited.insert(pos);
        proof {
            lemma_halo_seq_len(visited@, d);
        }

        // out-of-chunk positions end the fill without spreading
        if pos.0 < 0 || pos.0 + 1 > depth || pos.1 < 0 || pos.1 + 1 > depth || pos.2 < 0 || pos.2
            + 1 > depth {
            proof {
                assert(!open_cell(gd, gc, d, pos));
                assert(stack@ =~= st0.drop_first() + Seq::<Position>::empty());
                lemma_stack_sources(gd, gc, d, start, st0, stack@, pos, false);
                lemma_start_tracked(visited@, st0, stack@, start, pos, Seq::<Position>::empty());
                lemma_closure_no_spread(gd, gc, d, vis0, visited@, st0, stack@, pos);
            }
            continue ;
        }

        // opaque blocks end the fill
        if !is_transparent(chunk_data, config, &pos) {
            proof {
                assert(!open_cell(gd, gc, d, pos));
                assert(stack@ =~= st0.drop_first() + Seq::<Position>::empty());
                lemma_stack_sources(gd, gc, d, start, st0, stack@, pos, false);
                lemma_start_tracked(visited@, st0, stack@, start, pos, Seq::<Position>::empty());
                lemma_closure_no_spread(gd, gc, d, vis0, visited@, st0, stack@, pos);
            }
            continue ;
        }
        proof {
            assert(open_cell(gd, gc, d, pos));
            assert(connected(gd, gc, d, start, pos));
        }

        // a transparent position on the shell touches that face
        let ghost o0 = output@;
        if pos.0 == 0 && !side_listed(&output, Side::RIGHT) {
            output.push(Side::RIGHT);
        }
        let ghost o1 = output@;
        proof {
            lemma_side_stage(o0, o1, Side::RIGHT, pos.0 == 0);
            assert(pos.0 == 0 ==> o1.contains(Side::RIGHT));
        }
        if pos.0 == depth - 1 && !side_listed(&output, Side::LEFT) {
            output.push(Side::LEFT);
        }
        let ghost o2 = output@;
        proof {
            lemma_side_stage(o1, o2, Side::LEFT, pos.0 == d - 1);
            assert(pos.0 == d - 1 ==> o2.contains(Side::LEFT));
        }
        if pos.1 == 0 && !side_listed(&output, Side::BOTTOM) {
            output.push(Side::BOTTOM);
        }
        let ghost o3 = output@;
        proof {
            lemma_side_stage(o2, o3, Side::BOTTOM, pos.1 == 0);
            assert(pos.1 == 0 ==> o3.contains(Side::BOTTOM));
        }
        if pos.1 == depth - 1 && !side_listed(&output, Side::TOP) {
            output.push(Side::TOP);
        }
        let ghost o4 = output@;
        proof {
            lemma_side_stage(o3, o4, Side::TOP, pos.1 == d - 1);
            assert(pos.1 == d - 1 ==> o4.contains(Side::TOP));
        }
        if pos.2 == 0 && !side_listed(&output, Side::FRONT) {
            output.push(Side::FRONT);
        }
        let ghost o5 = output@;
        proof {
            lemma_side_stage(o4, o5, Side::FRONT, pos.2 == 0);
            assert(pos.2 == 0 ==> o5.contains(Side::FRONT));
        }
        if pos.2 == depth - 1 && !side_listed(&output, Side::BACK) {
            output.push(Side::BACK);
        }
        let ghost o6 = output@;
        proof {
            lemma_side_stage(o5, o6, Side::BACK, pos.2 == d - 1);
            assert(pos.2 == d - 1 ==> o6.contains(Side::BACK));
            // the planes of this position are all listed now
            assert forall|t: Side| #[trigger] on_face_plane(d, t, pos) implies o6.contains(t) by {
                if t == Side::RIGHT {
                    lemma_side_subset_chain(o1, o2, o3, o4, o5, o6, Side::RIGHT);
                } else if t == Side::LEFT {
                    lemma_side_subset_chain(o2, o3, o4, o5, o6, o6, Side::LEFT);
                } else if t == Side::BOTTOM {
                    lemma_side_subset_chain(o3, o4, o5, o6, o6, o6, Side::BOTTOM);
                } else if t == Side::TOP {
                    lemma_side_subset_chain(o4, o5, o6, o6, o6, o6, Side::TOP);
                } else if t == Side::FRONT {
                    lemma_side_subset_chain(o5, o6, o6, o6, o6, o6, Side::FRONT);
                } else {
                    assert(o6.contains(Side::BACK));
                }
            }
            // every listed face keeps or gains a witness
            assert forall|t: Side| #[trigger] o6.contains(t) implies exists|p: Position|
                (#[trigger] on_face_plane(d, t, p)) && open_cell(gd, gc, d, p) && connected(
                    gd,
                    gc,
                    d,
                    start,
                    p,
                ) by {
                if o0.contains(t) {
                } else {
                    assert(on_face_plane(d, t, pos)) by {
                        lemma_side_new_is_planar(o0, o1, o2, o3, o4, o5, o6, t, pos, d);
                    }
                }
            }
        }

        stack.push_back((pos.0 + 1, pos.1, pos.2));
        stack.push_back((pos.0 - 1, pos.1, pos.2));
        stack.push_back((pos.0, pos.1 + 1, pos.2));
        stack.push_back((pos.0, pos.1 - 1, pos.2));
        stack.push_back((pos.0, pos.1, pos.2 + 1));
        stack.push_back((pos.0, pos.1, pos.2 - 1));
        proof {
            assert(stack@ =~= st0.drop_first() + step_neighbors(pos));
            lemma_stack_sources(gd, gc, d, start, st0, stack@, pos, true);
            lemma_start_tracked(visited@, st0, stack@, start, pos, step_neighbors(pos));
            lemma_closure_spread(gd, gc, d, vis0, visited@, st0, stack@, pos);
            // earlier listed faces stay listed
            assert forall|t: Side| #[trigger] o0.contains(t) implies output@.contains(t) by {
                lemma_side_subset_chain(o0, o1, o2, o3, o4, o5, t);
                assert(o6.contains(t));
            }
        }
    }
    proof {
        assert(visited@.contains(start));
    }

    output
}

/// One face-listing stage: the new list extends the old by at most the one
/// side, only under its plane condition, and keeps everything listed.
proof fn lemma_side_stage(before: Seq<Side>, after: Seq<Side>, side: Side, cond: bool)
    requires
        after == before || (cond && after == before.push(side)),
    ensures
        forall|t: Side| #[trigger] before.contains(t) ==> after.contains(t),
        forall|t: Side| #[trigger] after.contains(t) ==> before.contains(t) || (t == side && cond),
        cond && before.contains(side) ==> after.contains(side),
        after == before.push(side) ==> after.contains(side),
{
    assert forall|t: Side| #[trigger] before.contains(t) implies after.contains(t) by {
        let i = choose|i: int| 0 <= i < before.len() && before[i] == t;
        assert(after[i] == t);
    }
    assert forall|t: Side| #[trigger] after.contains(t) implies before.contains(t) || (t == side
        && cond) by {
        let i = choose|i: int| 0 <= i < after.len() && after[i] == t;
        if i < before.len() {
            assert(before[i] == t);
        }
    }
    if after == before.push(side) {
        assert(after[after.len() - 1] == side);
    }
}

/// Membership carries forward through the later face-listing stages.
proof fn lemma_side_subset_chain(
    s1: Seq<Side>,
    s2: Seq<Side>,
    s3: Seq<Side>,
    s4: Seq<Side>,
    s5: Seq<Side>,
    s6: Seq<Side>,
    t: Side,
)
    requires
        s1.contains(t),
        forall|x: Side| #[trigger] s1.contains(x) ==> s2.contains(x),
        forall|x: Side| #[trigger] s2.contains(x) ==> s3.contains(x),
        forall|x: Side| #[trigger] s3.contains(x) ==> s4.contains(x),
        forall|x: Side| #[trigger] s4.contains(x) ==> s5.contains(x),
        forall|x: Side| #[trigger] s5.contains(x) ==> s6.contains(x),
    ensures
        s6.contains(t),
{
}

/// A side listed during this position's stages but not before lies on one
/// of the position's planes.
proof fn lemma_side_new_is_planar(
    o0: Seq<Side>,
    o1: Seq<Side>,
    o2: Seq<Side>,
    o3: Seq<Side>,
    o4: Seq<Side>,
    o5: Seq<Side>,
    o6: Seq<Side>,
    t: Side,
    pos: Position,
    d: int,
)
    requires
        o6.contains(t),
        !o0.contains(t),
        forall|x: Side| #[trigger] o1.contains(x) ==> o0.contains(x) || (x == Side::RIGHT && pos.0
            == 0),
        forall|x: Side| #[trigger] o2.contains(x) ==> o1.contains(x) || (x == Side::LEFT && pos.0
            == d - 1),
        forall|x: Side| #[trigger] o3.contains(x) ==> o2.contains(x) || (x == Side::BOTTOM && pos.1
            == 0),
        forall|x: Side| #[trigger] o4.contains(x) ==> o3.contains(x) || (x == Side::TOP && pos.1
            == d - 1),
        forall|x: Side| #[trigger] o5.contains(x) ==> o4.contains(x) || (x == Side::FRONT && pos.2
            == 0),
        forall|x: Side| #[trigger] o6.contains(x) ==> o5.contains(x) || (x == Side::BACK && pos.2
            == d - 1),
    ensures
        on_face_plane(d, t, pos),
{
}

/// Chunk coordinates whose six neighbors can be formed without overflow.
pub open spec fn chunk_in_range(c: Position) -> bool {
    &&& i32::MIN < c.0 < i32::MAX
    &&& i32::MIN < c.1 < i32::MAX
    &&& i32::MIN < c.2 < i32::MAX
}

/// The loaded chunks adjacent to `pos`, each paired with the face of `pos`
/// it sits against, in a fixed face order.
#[verifier::opaque]
pub open spec fn spec_get_neighbors(loaded: Map<Position, ChunkData>, pos: Position) -> Seq<
    (Side, Position),
> {
    let top = (pos.0, (pos.1 + 1) as i32, pos.2);
    let bottom = (pos.0, (pos.1 - 1) as i32, pos.2);
    let left = ((pos.0 - 1) as i32, pos.1, pos.2);
    let right = ((pos.0 + 1) as i32, pos.1, pos.2);
    let front = (pos.0, pos.1, (pos.2 - 1) as i32);
    let back = (pos.0, pos.1, (pos.2 + 1) as i32);
    (if loaded.contains_key(top) {
        seq![(Side::TOP, top)]
    } else {
        Seq::empty()
    }) + (if loaded.contains_key(bottom) {
        seq![(Side::BOTTOM, bottom)]
    } else {
        Seq::empty()
    }) + (if loaded.contains_key(left) {
        seq![(Side::LEFT, left)]
    } else {
        Seq::empty()
    }) + (if loaded.contains_key(right) {
        seq![(Side::RIGHT, right)]
    } else {
        Seq::empty()
    }) + (if loaded.contains_key(front) {
        seq![(Side::FRONT, front)]
    } else {
        Seq::empty()
    }) + (if loaded.contains_key(back) {
        seq![(Side::BACK, back)]
    } else {
        Seq::empty()
    })
}

/// Returns the loaded chunks neighboring `pos`, with the faces they touch.
pub fn get_neighbors(loaded_chunks: &ChunkStorage, pos: &Position) -> (output: Vec<
    (Side, Position),
>)
    requires
        chunk_in_range(*pos),
    ensures
        output@ == spec_get_neighbors(loaded_chunks@, *pos),
        forall|k: int|
            0 <= k < output@.len() ==> loaded_chunks@.contains_key(
                (#[trigger] output@[k]).1,
            ),
{
    let mut output: Vec<(Side, Position)> = Vec::new();

    let top = (pos.0, pos.1 + 1, pos.2);
    if loaded_chunks.contains_key(&top) {
        output.push((Side::TOP, top));
    }
    let bottom = (pos.0, pos.1 - 1, pos.2);
    if loaded_chunks.contains_key(&bottom) {
        output.push((Side::BOTTOM, bottom));
    }
    let left = (pos.0 - 1, pos.1, pos.2);
    if loaded_chunks.contains_key(&left) {
        output.push((Side::LEFT, left));
    }
    let right = (pos.0 + 1, pos.1, pos.2);
    if loaded_chunks.contains_key(&right) {
        output.push((Side::RIGHT, right));
    }
    let front = (pos.0, pos.1, pos.2 - 1);
    if loaded_chunks.contains_key(&front) {
        output.push((Side::FRONT, front));
    }
    let back = (pos.0, pos.1, pos.2 + 1);
    if loaded_chunks.contains_key(&back) {
        output.push((Side::BACK, back));
    }
    proof {
        reveal(spec_get_neighbors);
        assert(output@ =~= spec_get_neighbors(loaded_chunks@, *pos));
    }
    output
}

/// The executable `==` of face-index/position pairs is mathematical
/// equality.
pub proof fn lemma_pair_eq_reflects()
    ensures
        eq_reflects::<(u32, (i32, i32, i32))>(),
{
    assert forall|a: (u32, (i32, i32, i32)), b: (u32, (i32, i32, i32))| #[trigger]
        a.eq_spec(&b) <==> a == b by {
        if a.eq_spec(&b) {
            assert(a.0 == b.0 && a.1.0 == b.1.0 && a.1.1 == b.1.1 && a.1.2 == b.1.2);
        }
    }
}

/// Distinct face/chunk pairs over the loaded chunks number at most six per
/// loaded chunk.
proof fn lemma_visited_pairs_len(s: Seq<(u32, Position)>, store: &ChunkStorage)
    requires
        store.wf(),
        forall|i: int, j: int| 0 <= i < j < s.len() ==> s[i] != s[j],
        forall|e: (u32, Position)| #[trigger]
            s.contains(e) ==> store@.contains_key(e.1) && e.0 < 6,
    ensures
        s.len() <= 6 * store.entries_seq().len() as int,
{
    let es = store.entries_seq();
    let n: int = 6 * es.len() as int;
    assert(forall|i: int| 0 <= i < s.len() ==> s.contains(#[trigger] s[i]));
    let f = |e: (u32, Position)| 6 * key_index(es, e.1) + e.0;
    assert forall|i: int| 0 <= i < s.len() implies 0 <= #[trigger] f(s[i]) < n by {
        lemma_key_index(es, s[i].1);
    }
    assert forall|i: int, j: int| 0 <= i < j < s.len() implies f(s[i]) != f(s[j]) by {
        lemma_key_index(es, s[i].1);
        lemma_key_index(es, s[j].1);
        if s[i].1 == s[j].1 {
            assert(s[i].0 != s[j].0);
        } else {
            assert(es[key_index(es, s[i].1)].0 != es[key_index(es, s[j].1)].0);
        }
    }
    lemma_distinct_seq_len(s, f, n);
}

/// The chunk a face-neighbor pair was reached from: the neighbor stepped
/// back through the shared face.
pub open spec fn neighbor_source(t: Side, n: Position) -> Position {
    match t {
        Side::TOP => (n.0, (n.1 - 1) as i32, n.2),
        Side::BOTTOM => (n.0, (n.1 + 1) as i32, n.2),
        Side::LEFT => ((n.0 + 1) as i32, n.1, n.2),
        Side::RIGHT => ((n.0 - 1) as i32, n.1, n.2),
        Side::FRONT => (n.0, n.1, (n.2 + 1) as i32),
        Side::BACK => (n.0, n.1, (n.2 - 1) as i32),
    }
}

/// A listed neighbor pair of `pos` steps back to `pos`.
#[verifier::rlimit(100)]
proof fn lemma_neighbor_source(loaded: Map<Position, ChunkData>, pos: Position, t: Side, n: Position)
    requires
        chunk_in_range(pos),
        spec_get_neighbors(loaded, pos).contains((t, n)),
    ensures
        neighbor_source(t, n) == pos,
        loaded.contains_key(n),
{
    reveal(spec_get_neighbors);
    let ns = spec_get_neighbors(loaded, pos);
    let k = choose|k: int| 0 <= k < ns.len() && ns[k] == (t, n);
}

/// Whether the walk may leave chunk `c` through face `t` no matter which
/// face it entered through: `c` has no graph, or its graph permits the exit
/// from every entry face.
pub open spec fn exit_always_permitted(
    graphs: Map<Position, VisibilityGraph>,
    c: Position,
    t: Side,
) -> bool {
    graphs.contains_key(c) ==> forall|e: Side| #[trigger] graphs[c].reach(e, t)
}

/// The face-index/chunk pair the walk records for a visited edge.
pub open spec fn pair_of(t: Side, n: Position) -> (u32, Position) {
    (t.as_index() as u32, n)
}

/// Whether some queue entry will still visit chunk `n`.
pub open spec fn queued(q: Seq<(Position, Option<Side>)>, n: Position) -> bool {
    exists|k: int| 0 <= k < q.len() && (#[trigger] q[k]).0 == n
}

/// The renderer's draw order: a breadth-first search over the loaded,
/// adjacent chunks starting at the observer's chunk. A neighbor is skipped
/// when its edge was already walked from that face, when the current chunk's
/// visibility graph says sight cannot pass from the entry face to the exit
/// face, or when the view test rejected it. Every chunk it yields besides
/// the start is loaded and passed the view test, and the walk is complete:
/// a loaded, view-passing neighbor of a drawn chunk whose exit face is
/// permitted from every entry face is itself drawn.
#[verifier::rlimit(100)]
pub fn visible_chunks(
    loaded_chunks: &ChunkStorage,
    visibility_graphs: &VisibilityGraphStorage,
    start_chunk_pos: Position,
    frustum_chunks: &VecSet<Position>,
) -> (order: Vec<Position>)
    requires
        loaded_chunks.wf(),
        visibility_graphs.wf(),
        frustum_chunks.wf(),
        chunk_in_range(start_chunk_pos),
        forall|c: Position| #[trigger] loaded_chunks@.contains_key(c) ==> chunk_in_range(c),
    ensures
        order@.len() >= 1,
        order@[0] == start_chunk_pos,
        forall|i: int, j: int| 0 <= i < j < order@.len() ==> order@[i] != order@[j],
        forall|i: int|
            1 <= i < order@.len() ==> loaded_chunks@.contains_key(#[trigger] order@[i])
                && frustum_chunks@.contains(order@[i]),
        forall|i: int, t: Side, n: Position|
            0 <= i < order@.len() && #[trigger] spec_get_neighbors(
                loaded_chunks@,
                order@[i],
            ).contains((t, n)) && frustum_chunks@.contains(n) && exit_always_permitted(
                visibility_graphs@,
                order@[i],
                t,
            ) ==> order@.contains(n),
{
    let ghost bound: int = 6 * loaded_chunks.entries_seq().len() as int;
    let mut order: Vec<Position> = Vec::new();
    let mut drawn: VecSet<Position> = VecSet::new();
    let mut visited: VecSet<(u32, Position)> = VecSet::new();
    let mut search_queue: VecDeque<(Position, Option<Side>)> = VecDeque::new();
    search_queue.push_back((start_chunk_pos, None));
    proof {
        lemma_triple_eq_reflects();
        lemma_pair_eq_reflects();
        assert(search_queue@[0].0 == start_chunk_pos);
    }

    while search_queue.len() > 0
        invariant
            loaded_chunks.wf(),
            visibility_graphs.wf(),
            frustum_chunks.wf(),
            chunk_in_range(start_chunk_pos),
            forall|c: Position| #[trigger] loaded_chunks@.contains_key(c) ==> chunk_in_range(c),
            bound == 6 * loaded_chunks.entries_seq().len() as int,
            eq_reflects::<Position>(),
            eq_reflects::<(u32, Position)>(),
            drawn.wf(),
            visited.wf(),
            drawn@ == order@,
            visited@.len() <= bound,
            forall|e: (u32, Position)| #[trigger]
                visited@.contains(e) ==> loaded_chunks@.contains_key(e.1) && e.0 < 6,
            forall|k: int|
                0 <= k < search_queue@.len() ==> (#[trigger] search_queue@[k]).0
                    == start_chunk_pos || (loaded_chunks@.contains_key(search_queue@[k].0)
                    && frustum_chunks@.contains(search_queue@[k].0)),
            order@.len() == 0 ==> search_queue@.len() > 0 && search_queue@[0].0
                == start_chunk_pos,
            order@.len() > 0 ==> order@[0] == start_chunk_pos,
            forall|i: int|
                1 <= i < order@.len() ==> loaded_chunks@.contains_key(#[trigger] order@[i])
                    && frustum_chunks@.contains(order@[i]),
            // every neighbor edge of a drawn chunk has been walked
            forall|i: int, t: Side, n: Position|
                0 <= i < order@.len() && #[trigger] spec_get_neighbors(
                    loaded_chunks@,
                    order@[i],
                ).contains((t, n)) ==> visited@.contains(pair_of(t, n)),
            // every walked edge that passes its checks leads somewhere drawn
            // or still queued
            forall|t: Side, n: Position|
                #[trigger] visited@.contains(pair_of(t, n)) && frustum_chunks@.contains(n)
                    && exit_always_permitted(visibility_graphs@, neighbor_source(t, n), t)
                    ==> drawn@.contains(n) || queued(search_queue@, n),
        decreases bound - visited@.len(), search_queue@.len(),
    {
        let ghost q0 = search_queue@;
        let popped = match search_queue.pop_front() {
            Some(e) => e,
            None => vstd::pervasive::unreached(),
        };
        let chunk_pos = popped.0;
        let side = popped.1;
        proof {
            assert(q0[0] == popped);
            assert(search_queue@ == q0.drop_first());
        }

        if !drawn.contains(&chunk_pos) {
            drawn.insert(chunk_pos);
            order.push(chunk_pos);
        }
        proof {
            assert(drawn@.contains(chunk_pos));
            // a dequeued chunk is drawn, so pending edges stay resolved
            assert forall|t: Side, n: Position|
                #[trigger] visited@.contains(pair_of(t, n)) && frustum_chunks@.contains(n)
                    && exit_always_permitted(visibility_graphs@, neighbor_source(t, n), t)
                    implies drawn@.contains(n) || queued(search_queue@, n) by {
                if !drawn@.contains(n) {
                    let k = choose|k: int| 0 <= k < q0.len() && (#[trigger] q0[k]).0 == n;
                    if k == 0 {
                        assert(drawn@.contains(chunk_pos));
                        assert(false);
                    } else {
                        assert(search_queue@[k - 1].0 == n);
                    }
                }
            }
        }

        let neighbors = get_neighbors(loaded_chunks, &chunk_pos);
        let ghost v0 = visited@;
        let ghost q1 = search_queue@;
        let mut k: usize = 0;
        while k < neighbors.len()
            invariant
                loaded_chunks.wf(),
                visibility_graphs.wf(),
                frustum_chunks.wf(),
                bound == 6 * loaded_chunks.entries_seq().len() as int,
                eq_reflects::<Position>(),
                eq_reflects::<(u32, Position)>(),
                chunk_in_range(chunk_pos),
                k <= neighbors@.len(),
                neighbors@ == spec_get_neighbors(loaded_chunks@, chunk_pos),
                forall|c: Position| #[trigger] loaded_chunks@.contains_key(c) ==> chunk_in_range(c),
                forall|t: int|
                    0 <= t < neighbors@.len() ==> loaded_chunks@.contains_key(
                        (#[trigger] neighbors@[t]).1,
                    ),
                visited.wf(),
                visited@.len() <= bound,
                forall|e: (u32, Position)| #[trigger]
                    visited@.contains(e) ==> loaded_chunks@.contains_key(e.1) && e.0 < 6,
                forall|e: (u32, Position)| #[trigger] v0.contains(e) ==> visited@.contains(e),
                v0.len() <= visited@.len(),
                search_queue@.len() - q1.len() <= visited@.len() - v0.len(),
                forall|t: int|
                    0 <= t < search_queue@.len() ==> (#[trigger] search_queue@[t]).0
                        == start_chunk_pos || (loaded_chunks@.contains_key(search_queue@[t].0)
                        && frustum_chunks@.contains(search_queue@[t].0)),
                q1.len() <= search_queue@.len(),
                forall|t: int| 0 <= t < q1.len() ==> search_queue@[t] == q1[t],
                // edges of this chunk walked so far
                forall|t: int|
                    0 <= t < k ==> visited@.contains(
                        pair_of((#[trigger] neighbors@[t]).0, neighbors@[t].1),
                    ),
                // walked edges stay resolved
                forall|t: Side, n: Position|
                    #[trigger] visited@.contains(pair_of(t, n)) && frustum_chunks@.contains(n)
                        && exit_always_permitted(visibility_graphs@, neighbor_source(t, n), t)
                        ==> drawn@.contains(n) || queued(search_queue@, n),
            decreases neighbors@.len() - k,
        {
            let next_side = neighbors[k].0;
            let next_chunk_pos = neighbors[k].1;
            let pair = (next_side.index() as u32, next_chunk_pos);
            proof {
                assert(neighbors@[k as int] == (next_side, next_chunk_pos));
                assert(neighbors@.contains((next_side, next_chunk_pos)));
                lemma_neighbor_source(loaded_chunks@, chunk_pos, next_side, next_chunk_pos);
                assert(pair == pair_of(next_side, next_chunk_pos));
            }

            let ghost vpre = visited@;
            let ghost qpre = search_queue@;
            if !visited.contains(&pair) {
                visited.insert(pair);
                proof {
                    assert(loaded_chunks@.contains_key(next_chunk_pos));
                    lemma_visited_pairs_len(visited@, loaded_chunks);
                }

                let mut blocked = false;
                if let Some(current_side) = side {
                    match visibility_graphs.get(&chunk_pos) {
                        Some(graph) => {
                            if !graph.can_reach_from(current_side, next_side) {
                                blocked = true;
                            }
                        },
                        None => {},
                    }
                }
                proof {
                    assert(blocked ==> !exit_always_permitted(
                        visibility_graphs@,
                        chunk_pos,
                        next_side,
                    ));
                }
                if !blocked && frustum_chunks.contains(&next_chunk_pos) {
                    search_queue.push_back((next_chunk_pos, Some(next_side.opposite())));
                    proof {
                        assert(search_queue@[search_queue@.len() - 1].0 == next_chunk_pos);
                        assert(queued(search_queue@, next_chunk_pos));
                    }
                }
                proof {
                    assert forall|t: Side, n: Position|
                        #[trigger] visited@.contains(pair_of(t, n)) && frustum_chunks@.contains(n)
                            && exit_always_permitted(visibility_graphs@, neighbor_source(t, n), t)
                            implies drawn@.contains(n) || queued(search_queue@, n) by {
                        if pair_of(t, n) == pair {
                            lemma_side_index();
                            assert(t == next_side && n == next_chunk_pos);
                            assert(!blocked);
                            assert(queued(search_queue@, n));
                        } else {
                            assert(vpre.contains(pair_of(t, n)));
                            if !drawn@.contains(n) {
                                let w = choose|w: int|
                                    0 <= w < qpre.len() && (#[trigger] qpre[w]).0 == n;
                                assert(search_queue@[w].0 == n);
                            }
                        }
                    }
                }
            } else {
                proof {
                    assert(visited@.contains(pair_of(next_side, next_chunk_pos)));
                }
            }
            proof {
                assert forall|t: int| 0 <= t < q1.len() implies search_queue@[t] == q1[t] by {
                    assert(qpre[t] == q1[t]);
                }
                assert forall|t: int|
                    0 <= t < k + 1 implies visited@.contains(
                    pair_of((#[trigger] neighbors@[t]).0, neighbors@[t].1),
                ) by {
                    if t < k {
                        assert(vpre.contains(pair_of(neighbors@[t].0, neighbors@[t].1)));
                    } else {
                        assert(neighbors@[t] == (next_side, next_chunk_pos));
                    }
                }
            }
            k += 1;
        }
        proof {
            // each edge of the freshly drawn chunk is now walked
            assert forall|i: int, t: Side, n: Position|
                0 <= i < order@.len() && #[trigger] spec_get_neighbors(
                    loaded_chunks@,
                    order@[i],
                ).contains((t, n)) implies visited@.contains(pair_of(t, n)) by {
                if order@[i] == chunk_pos {
                    let w = choose|w: int|
                        0 <= w < neighbors@.len() && neighbors@[w] == (t, n);
                    assert(visited@.contains(pair_of(neighbors@[w].0, neighbors@[w].1)));
                }
            }
        }
    }
    proof {
        assert forall|i: int, t: Side, n: Position|
            0 <= i < order@.len() && #[trigger] spec_get_neighbors(
                loaded_chunks@,
                order@[i],
            ).contains((t, n)) && frustum_chunks@.contains(n) && exit_always_permitted(
                visibility_graphs@,
                order@[i],
                t,
            ) implies order@.contains(n) by {
            assert(visited@.contains(pair_of(t, n)));
            assert(chunk_in_range(order@[i])) by {
                if i == 0 {
                } else {
                    assert(loaded_chunks@.contains_key(order@[i]));
                }
            }
            lemma_neighbor_source(loaded_chunks@, order@[i], t, n);
            assert(drawn@.contains(n) || queued(search_queue@, n));
        }
    }
    order
}

/// Whether `side` was already recorded in `output`.
fn side_listed(output: &Vec<Side>, side: Side) -> (r: bool)
    ensures
        r == output@.contains(side),
{
    let mut i: usize = 0;
    while i < output.len()
        invariant
            i <= output@.len(),
            forall|k: int| 0 <= k < i ==> output@[k] != side,
        decreases output@.len() - i,
    {
        if output[i] == side {
            proof {
                assert(output@[i as int] == side);
            }
            return true;
        }
        i += 1;
    }
    proof {
        if output@.contains(side) {
            let k = choose|k: int| 0 <= k < output@.len() && output@[k] == side;
            assert(output@[k] != side);
            assert(false);
        }
    }
    false
}

} // verus!
