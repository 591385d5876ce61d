//! The chunk loader/streamer: which chunks enter and leave the resident
//! set, and how finished background builds are merged into live state.
//!
//! Each tick the loader diffs the box around the observer's chunk against
//! the chunk store: chunks outside the radius are evicted from the store,
//! the collider table and the render-object table together, and chunks
//! inside that are neither loaded nor loading are dispatched. Workers build
//! dispatched chunks with [`build_chunk`] and push the results into the
//! done queue; the main thread drains up to a fixed cap of oldest results
//! per tick to bound its per-frame cost.

use vstd::prelude::*;

verus! {

use crate::chunk::collision::{Collider, calculate_collider, opaque_blocks};
use crate::chunk::culling::{VisibilityGraph, VisibilityGraphStorage, boundary_sealed, Side};
use crate::chunk::generation::{
    SolidField,
    chunk_world_in_range,
    field_covers_chunk,
    field_covers_foliage,
    generated_chunk,
    load_chunk,
};
use crate::chunk::meshing::{Mesh, mesh_chunk, mesh_indices, mesh_vertices};
use crate::chunk::{
    ChunkConfig,
    ChunkData,
    ChunkStorage,
    Position,
    calc_lod,
    chunk_id,
    chunk_key,
    key_chunk,
    spec_chunk_position,
    chunk_position,
};
use crate::util::pos_map::PosMap;
use crate::util::vec_set::{VecSet, eq_reflects};
use crate::chunk::culling::lemma_triple_eq_reflects;

#[verifier::external_type_specification]
#[verifier::external_body]
#[verifier::reject_recursive_types(T)]
#[verifier::reject_recursive_types(S)]
pub struct ExIndexSet<T, S>(indexmap::IndexSet<T, S>);

/// What an insertion-ordered index set holds, oldest first.
pub uninterp spec fn index_set_elems(
    s: indexmap::IndexSet<u128, std::collections::hash_map::RandomState>,
) -> Seq<u128>;

/// Relies on indexmap's `IndexSet::new`: a new set holds nothing.
#[verifier::external_body]
fn index_set_new() -> (s: indexmap::IndexSet<u128, std::collections::hash_map::RandomState>)
    ensures
        index_set_elems(s) == Seq::<u128>::empty(),
{
    indexmap::IndexSet::new()
}

/// Relies on indexmap's `IndexSet::insert`: a value not yet present goes to
/// the back and the call returns true; a present one leaves the set and its
/// order unchanged and the call returns false.
#[verifier::external_body]
fn index_set_insert(
    s: &mut indexmap::IndexSet<u128, std::collections::hash_map::RandomState>,
    value: u128,
) -> (added: bool)
    ensures
        index_set_elems(*final(s)) == if index_set_elems(*old(s)).contains(value) {
            index_set_elems(*old(s))
        } else {
            index_set_elems(*old(s)).push(value)
        },
        added == !index_set_elems(*old(s)).contains(value),
{
    s.insert(value)
}

/// Relies on indexmap's `IndexSet::shift_remove_index` at index zero: the
/// oldest value is removed and the rest shift down, keeping their order;
/// an empty set returns nothing and stays empty.
#[verifier::external_body]
fn index_set_shift_remove_first(
    s: &mut indexmap::IndexSet<u128, std::collections::hash_map::RandomState>,
) -> (r: Option<u128>)
    ensures
        index_set_elems(*old(s)).len() == 0 ==> r is None && index_set_elems(*final(s))
            == index_set_elems(*old(s)),
        index_set_elems(*old(s)).len() > 0 ==> r == Some(index_set_elems(*old(s))[0])
            && index_set_elems(*final(s)) == index_set_elems(*old(s)).drop_first(),
{
    s.shift_remove_index(0)
}

/// Relies on indexmap's `IndexSet::len`.
#[verifier::external_body]
fn index_set_len(s: &indexmap::IndexSet<u128, std::collections::hash_map::RandomState>) -> (n:
    usize)
    ensures
        n == index_set_elems(*s).len(),
{
    s.len()
}

/// Everything a background worker builds for one chunk.
pub struct ChunkBuildResult {
    /// The chunk coordinate the result belongs to.
    pub pos: Position,
    /// The generated block data.
    pub chunk: ChunkData,
    /// Its face-reachability graph.
    pub visibility_graph: VisibilityGraph,
    /// Its packed geometry.
    pub mesh: Mesh,
    /// Its collision shape.
    pub collider: Collider,
}

/// The completed-but-unmerged results, in completion order: an
/// insertion-ordered set of chunk identifiers over a table of results kept
/// in the same order.
pub struct DoneQueue {
    order: indexmap::IndexSet<u128, std::collections::hash_map::RandomState>,
    results: PosMap<ChunkBuildResult>,
}

impl DoneQueue {
    /// The chunk coordinates queued, oldest first.
    pub closed spec fn keys(&self) -> Seq<Position> {
        index_set_elems(self.order).map_values(|k: u128| key_chunk(k))
    }

    /// The queued results by chunk coordinate.
    pub closed spec fn results_map(&self) -> Map<Position, ChunkBuildResult> {
        self.results@
    }

    /// The order set and the result table hold the same chunks in the same
    /// order, under valid identifiers.
    pub closed spec fn wf(&self) -> bool {
        let es = index_set_elems(self.order);
        let en = self.results.entries_seq();
        &&& self.results.wf()
        &&& es.len() == en.len()
        &&& forall|i: int|
            0 <= i < es.len() ==> key_chunk(#[trigger] es[i]) == en[i].0 && es[i] == chunk_key(
                en[i].0,
            )
    }

    /// Queued coordinates are distinct and each has a result.
    pub proof fn lemma_keys(&self)
        requires
            self.wf(),
        ensures
            forall|i: int, j: int|
                0 <= i < j < self.keys().len() ==> self.keys()[i] != self.keys()[j],
            forall|i: int|
                0 <= i < self.keys().len() ==> self.results_map().contains_key(
                    #[trigger] self.keys()[i],
                ),
    {
        let es = index_set_elems(self.order);
        let en = self.results.entries_seq();
        assert forall|i: int, j: int|
            0 <= i < j < self.keys().len() implies self.keys()[i] != self.keys()[j] by {
            assert(key_chunk(es[i]) == en[i].0);
            assert(key_chunk(es[j]) == en[j].0);
            assert(en[i].0 != en[j].0);
        }
        assert forall|i: int| 0 <= i < self.keys().len() implies self.results_map().contains_key(
            #[trigger] self.keys()[i],
        ) by {
            assert(key_chunk(es[i]) == en[i].0);
            crate::util::pos_map::lemma_map_of_contains_at(en, i);
        }
    }

    pub fn new() -> (r: Self)
        ensures
            r.wf(),
            r.keys() == Seq::<Position>::empty(),
            r.results_map() == Map::<Position, ChunkBuildResult>::empty(),
    {
        let r = DoneQueue { order: index_set_new(), results: PosMap::new() };
        proof {
            assert(r.keys() =~= Seq::<Position>::empty());
        }
        r
    }

    /// How many results are queued.
    pub fn len(&self) -> (n: usize)
        ensures
            n == self.keys().len(),
    {
        index_set_len(&self.order)
    }

    /// Queues a finished result under its chunk coordinate. A coordinate
    /// already queued keeps its place in the order; its result is replaced.
    pub fn push(&mut self, pos: Position, result: ChunkBuildResult)
        requires
            old(self).wf(),
        ensures
            final(self).wf(),
            final(self).keys() == if old(self).results_map().contains_key(pos) {
                old(self).keys()
            } else {
                old(self).keys().push(pos)
            },
            final(self).results_map() == old(self).results_map().insert(pos, result),
    {
        let key = chunk_id(&pos);
        let ghost es0 = index_set_elems(self.order);
        let ghost en0 = self.results.entries_seq();
        proof {
            // the order set holds the identifier exactly when the result
            // table holds the coordinate
            crate::util::pos_map::lemma_map_of_contains(en0, pos);
            assert(es0.contains(key) == old(self).results_map().contains_key(pos)) by {
                if es0.contains(key) {
                    let i = choose|i: int| 0 <= i < es0.len() && es0[i] == key;
                    assert(key_chunk(es0[i]) == en0[i].0);
                    assert(en0[i].0 == pos);
                }
                if old(self).results_map().contains_key(pos) {
                    let i = choose|i: int| 0 <= i < en0.len() && en0[i].0 == pos;
                    assert(es0[i] == chunk_key(en0[i].0));
                    assert(es0.contains(es0[i]));
                }
            }
        }
        let _added = index_set_insert(&mut self.order, key);
        self.results.insert(pos, result);
        proof {
            let es1 = index_set_elems(self.order);
            let en1 = self.results.entries_seq();
            assert(keys_of_entries(en1) == if old(self).results_map().contains_key(pos) {
                keys_of_entries(en0)
            } else {
                keys_of_entries(en0).push(pos)
            });
            if es0.contains(key) {
                assert(es1 == es0);
                assert forall|i: int| 0 <= i < es1.len() implies key_chunk(#[trigger] es1[i])
                    == en1[i].0 && es1[i] == chunk_key(en1[i].0) by {
                    assert(en1[i].0 == keys_of_entries(en1)[i]);
                    assert(en0[i].0 == keys_of_entries(en0)[i]);
                }
                assert(final(self).keys() =~= old(self).keys());
            } else {
                assert(es1 == es0.push(key));
                assert forall|i: int| 0 <= i < es1.len() implies key_chunk(#[trigger] es1[i])
                    == en1[i].0 && es1[i] == chunk_key(en1[i].0) by {
                    assert(en1[i].0 == keys_of_entries(en1)[i]);
                    if i < es0.len() {
                        assert(en0[i].0 == keys_of_entries(en0)[i]);
                        assert(es1[i] == es0[i]);
                    } else {
                        assert(en1[i].0 == pos);
                        assert(es1[i] == key);
                    }
                }
                assert(final(self).keys() =~= old(self).keys().push(pos));
            }
        }
    }

    /// Takes out the oldest result, if any.
    pub fn pop_front(&mut self) -> (r: Option<(Position, ChunkBuildResult)>)
        requires
            old(self).wf(),
        ensures
            final(self).wf(),
            old(self).keys().len() == 0 ==> r is None && final(self).keys() == old(self).keys()
                && final(self).results_map() == old(self).results_map(),
            old(self).keys().len() > 0 ==> {
                let p = old(self).keys()[0];
                &&& r == Some((p, old(self).results_map()[p]))
                &&& final(self).keys() == old(self).keys().drop_first()
                &&& final(self).results_map() == old(self).results_map().remove(p)
            },
    {
        let ghost es0 = index_set_elems(self.order);
        let ghost en0 = self.results.entries_seq();
        match index_set_shift_remove_first(&mut self.order) {
            Some(key) => {
                proof {
                    assert(key_chunk(es0[0]) == en0[0].0 && es0[0] == chunk_key(en0[0].0));
                }
                let pos = crate::chunk::chunk_pos_from_id(key);
                proof {
                    crate::util::pos_map::lemma_map_of_contains_at(en0, 0);
                    crate::util::pos_map::lemma_map_of_index(en0, 0);
                }
                let result = match self.results.remove(&pos) {
                    Some(result) => result,
                    None => vstd::pervasive::unreached(),
                };
                proof {
                    let es1 = index_set_elems(self.order);
                    let en1 = self.results.entries_seq();
                    // the removed entry was the front one: keys are distinct
                    let i = choose|i: int|
                        0 <= i < en0.len() && en0[i].0 == pos && en1 == en0.remove(i);
                    assert(i == 0) by {
                        if i != 0 {
                            assert(en0[0].0 != en0[i].0);
                        }
                    }
                    assert(en1 =~= en0.drop_first());
                    assert forall|t: int| 0 <= t < es1.len() implies key_chunk(
                        #[trigger] es1[t],
                    ) == en1[t].0 && es1[t] == chunk_key(en1[t].0) by {
                        assert(es1[t] == es0[t + 1]);
                        assert(en1[t] == en0[t + 1]);
                        assert(key_chunk(es0[t + 1]) == en0[t + 1].0);
                    }
                    assert(final(self).keys() =~= old(self).keys().drop_first());
                }
                Some((pos, result))
            },
            None => {
                proof {
                    assert(final(self).keys() =~= old(self).keys());
                }
                None
            },
        }
    }
}

/// The keys of a result-entry sequence, in order.
pub open spec fn keys_of_entries(s: Seq<(Position, ChunkBuildResult)>) -> Seq<Position> {
    crate::util::pos_map::keys_of(s)
}

/// All live per-chunk state of the world.
pub struct GameData {
    /// The chunk store: block data of every loaded chunk.
    pub loaded_chunks: ChunkStorage,
    /// The visibility graph of every chunk that finished building.
    pub visibility_graphs: VisibilityGraphStorage,
    /// The collider of every loaded chunk, handed to the physics
    /// collaborator.
    pub colliders: PosMap<Collider>,
    /// The geometry of every loaded chunk, handed to the renderer.
    pub render_objects: PosMap<Mesh>,
    /// Chunks dispatched to the workers and not yet merged.
    pub loading: VecSet<Position>,
    /// Finished builds awaiting the bounded per-tick drain.
    pub done_loading: DoneQueue,
}

impl GameData {
    /// Tables are well formed, a chunk is never both loaded and loading,
    /// and every queued result belongs to a chunk still marked loading.
    pub open spec fn wf(&self) -> bool {
        &&& self.loaded_chunks.wf()
        &&& self.visibility_graphs.wf()
        &&& self.colliders.wf()
        &&& self.render_objects.wf()
        &&& self.loading.wf()
        &&& self.done_loading.wf()
        &&& forall|p: Position| #[trigger]
            self.loading@.contains(p) ==> !self.loaded_chunks@.contains_key(p)
        &&& forall|i: int|
            0 <= i < self.done_loading.keys().len() ==> self.loading@.contains(
                #[trigger] self.done_loading.keys()[i],
            )
    }

    /// A world with nothing loaded.
    pub fn new() -> (r: Self)
        ensures
            r.wf(),
            r.loaded_chunks@ == Map::<Position, ChunkData>::empty(),
            r.visibility_graphs@ == Map::<Position, VisibilityGraph>::empty(),
            r.colliders@ == Map::<Position, Collider>::empty(),
            r.render_objects@ == Map::<Position, Mesh>::empty(),
            r.loading@ == Seq::<Position>::empty(),
            r.done_loading.keys() == Seq::<Position>::empty(),
    {
        GameData {
            loaded_chunks: PosMap::new(),
            visibility_graphs: PosMap::new(),
            colliders: PosMap::new(),
            render_objects: PosMap::new(),
            loading: VecSet::new(),
            done_loading: DoneQueue::new(),
        }
    }
}

/// Whether `p` lies within the box of `radius` chunks around `center`.
pub open spec fn in_radius(center: Position, radius: int, p: Position) -> bool {
    &&& center.0 - radius <= p.0 <= center.0 + radius
    &&& center.1 - radius <= p.1 <= center.1 + radius
    &&& center.2 - radius <= p.2 <= center.2 + radius
}

/// Whether the load tick must dispatch `p`: it lies in the radius and is
/// neither loaded nor already dispatched.
pub open spec fn should_dispatch(
    loaded: Map<Position, ChunkData>,
    loading: Seq<Position>,
    center: Position,
    radius: int,
    p: Position,
) -> bool {
    &&& in_radius(center, radius, p)
    &&& !loaded.contains_key(p)
    &&& !loading.contains(p)
}

/// The observer's chunk and the radius can be boxed without overflow.
pub open spec fn observer_in_range(config: ChunkConfig, observer_pos: Position) -> bool {
    let center = spec_chunk_position(observer_pos, config.depth as int);
    let radius = config.load_radius as int;
    &&& radius <= 0x1000_0000
    &&& i32::MIN < center.0 - radius - 1 && center.0 + radius + 1 < i32::MAX
    &&& i32::MIN < center.1 - radius - 1 && center.1 + radius + 1 < i32::MAX
    &&& i32::MIN < center.2 - radius - 1 && center.2 + radius + 1 < i32::MAX
}

/// One load tick: evicts every loaded chunk outside the radius around the
/// observer from the chunk store, the collider table and the render-object
/// table together, and returns the chunks to dispatch — exactly those in
/// the radius that are neither loaded nor loading — after marking them
/// loading. A chunk is never dispatched twice.
pub fn load_world(data: &mut GameData, config: &ChunkConfig, observer_pos: Position) -> (dispatched:
    Vec<Position>)
    requires
        config.wf(),
        old(data).wf(),
        observer_in_range(*config, observer_pos),
    ensures
        final(data).wf(),
        ({
            let center = spec_chunk_position(observer_pos, config.depth as int);
            let radius = config.load_radius as int;
            &&& forall|i: int, j: int|
                0 <= i < j < dispatched@.len() ==> dispatched@[i] != dispatched@[j]
            &&& forall|p: Position| #[trigger]
                dispatched@.contains(p) <==> should_dispatch(
                    old(data).loaded_chunks@,
                    old(data).loading@,
                    center,
                    radius,
                    p,
                )
            &&& forall|p: Position| #[trigger]
                final(data).loading@.contains(p) <==> old(data).loading@.contains(p)
                    || dispatched@.contains(p)
            &&& forall|p: Position| #[trigger]
                final(data).loaded_chunks@.contains_key(p) <==> old(data).loaded_chunks@.contains_key(p) && in_radius(center, radius, p)
            &&& forall|p: Position|
                final(data).loaded_chunks@.contains_key(p) ==> #[trigger] final(data).loaded_chunks@[p] == old(data).loaded_chunks@[p]
            &&& forall|p: Position| #[trigger]
                final(data).colliders@.contains_key(p) <==> old(data).colliders@.contains_key(p)
                    && !(old(data).loaded_chunks@.contains_key(p) && !in_radius(
                    center,
                    radius,
                    p,
                ))
            &&& forall|p: Position|
                final(data).colliders@.contains_key(p) ==> #[trigger] final(data).colliders@[p]
                    == old(data).colliders@[p]
            &&& forall|p: Position| #[trigger]
                final(data).render_objects@.contains_key(p) <==> old(data).render_objects@.contains_key(p) && !(old(data).loaded_chunks@.contains_key(p)
                    && !in_radius(center, radius, p))
            &&& forall|p: Position|
                final(data).render_objects@.contains_key(p) ==> #[trigger] final(data).render_objects@[p] == old(data).render_objects@[p]
            &&& final(data).visibility_graphs == old(data).visibility_graphs
            &&& final(data).done_loading == old(data).done_loading
        }),
{
    proof {
        lemma_triple_eq_reflects();
    }
    let center = chunk_position(config, &observer_pos);
    let radius = config.load_radius as i32;
    let ghost c = center;
    let ghost r = radius as int;
    let ghost loaded0 = data.loaded_chunks@;
    let ghost loading0 = data.loading@;

    let mut dispatched: Vec<Position> = Vec::new();

    // dispatch everything in the box that is neither loaded nor loading
    let mut x: i32 = center.0 - radius;
    while x <= center.0 + radius
        invariant
            config.wf(),
            observer_in_range(*config, observer_pos),
            c == spec_chunk_position(observer_pos, config.depth as int),
            r == config.load_radius as int,
            center == c,
            radius as int == r,
            c.0 - r <= x <= c.0 + r + 1,
            eq_reflects::<Position>(),
            data.loading.wf(),
            data.loaded_chunks == old(data).loaded_chunks,
            data.visibility_graphs == old(data).visibility_graphs,
            data.colliders == old(data).colliders,
            data.render_objects == old(data).render_objects,
            data.done_loading == old(data).done_loading,
            loaded0 == old(data).loaded_chunks@,
            loading0 == old(data).loading@,
            forall|i: int, j: int|
                0 <= i < j < dispatched@.len() ==> dispatched@[i] != dispatched@[j],
            forall|p: Position| #[trigger]
                dispatched@.contains(p) <==> should_dispatch(loaded0, loading0, c, r, p) && p.0
                    < x,
            forall|p: Position| #[trigger]
                data.loading@.contains(p) <==> loading0.contains(p) || dispatched@.contains(p),
        decreases c.0 + r + 1 - x,
    {
        let mut y: i32 = center.1 - radius;
        while y <= center.1 + radius
            invariant
                config.wf(),
                observer_in_range(*config, observer_pos),
                c == spec_chunk_position(observer_pos, config.depth as int),
                r == config.load_radius as int,
                center == c,
                radius as int == r,
                c.0 - r <= x <= c.0 + r,
                c.1 - r <= y <= c.1 + r + 1,
                eq_reflects::<Position>(),
                data.loading.wf(),
                data.loaded_chunks == old(data).loaded_chunks,
                data.visibility_graphs == old(data).visibility_graphs,
                data.colliders == old(data).colliders,
                data.render_objects == old(data).render_objects,
                data.done_loading == old(data).done_loading,
                loaded0 == old(data).loaded_chunks@,
                loading0 == old(data).loading@,
                forall|i: int, j: int|
                    0 <= i < j < dispatched@.len() ==> dispatched@[i] != dispatched@[j],
                forall|p: Position| #[trigger]
                    dispatched@.contains(p) <==> should_dispatch(loaded0, loading0, c, r, p) && (
                    p.0 < x || (p.0 == x && p.1 < y)),
                forall|p: Position| #[trigger]
                    data.loading@.contains(p) <==> loading0.contains(p) || dispatched@.contains(
                        p,
                    ),
            decreases c.1 + r + 1 - y,
        {
            let mut z: i32 = center.2 - radius;
            while z <= center.2 + radius
                invariant
                    config.wf(),
                    observer_in_range(*config, observer_pos),
                    c == spec_chunk_position(observer_pos, config.depth as int),
                    r == config.load_radius as int,
                    center == c,
                    radius as int == r,
                    c.0 - r <= x <= c.0 + r,
                    c.1 - r <= y <= c.1 + r,
                    c.2 - r <= z <= c.2 + r + 1,
                    eq_reflects::<Position>(),
                    data.loading.wf(),
                    data.loaded_chunks == old(data).loaded_chunks,
                    data.visibility_graphs == old(data).visibility_graphs,
                    data.colliders == old(data).colliders,
                    data.render_objects == old(data).render_objects,
                    data.done_loading == old(data).done_loading,
                    loaded0 == old(data).loaded_chunks@,
                    loading0 == old(data).loading@,
                    forall|i: int, j: int|
                        0 <= i < j < dispatched@.len() ==> dispatched@[i] != dispatched@[j],
                    forall|p: Position| #[trigger]
                        dispatched@.contains(p) <==> should_dispatch(loaded0, loading0, c, r, p)
                            && (p.0 < x || (p.0 == x && p.1 < y) || (p.0 == x && p.1 == y && p.2
                            < z)),
                    forall|p: Position| #[trigger]
                        data.loading@.contains(p) <==> loading0.contains(p)
                            || dispatched@.contains(p),
                decreases c.2 + r + 1 - z,
            {
                let p = (x, y, z);
                if !data.loaded_chunks.contains_key(&p) && !data.loading.contains(&p) {
                    proof {
                        assert(!dispatched@.contains(p));
                    }
                    data.loading.insert(p);
                    let ghost dpre = dispatched@;
                    dispatched.push(p);
                    proof {
                        assert(dispatched@ == dpre.push(p));
                        assert forall|a: int, b: int|
                            0 <= a < b < dispatched@.len() implies dispatched@[a]
                            != dispatched@[b] by {
                            if b == dispatched@.len() - 1 {
                                assert(dpre[a] == dispatched@[a]);
                                assert(!dpre.contains(dispatched@[a]) ==> dpre[a]
                                    != dispatched@[a]);
                                if dispatched@[a] == p {
                                    assert(dpre.contains(p));
                                }
                            } else {
                                assert(dpre[a] == dispatched@[a] && dpre[b] == dispatched@[b]);
                            }
                        }
                        assert forall|q: Position| #[trigger]
                            dispatched@.contains(q) implies should_dispatch(
                            loaded0,
                            loading0,
                            c,
                            r,
                            q,
                        ) && (q.0 < x || (q.0 == x && q.1 < y) || (q.0 == x && q.1 == y && q.2 < z
                            + 1)) by {
                            let k = choose|k: int|
                                0 <= k < dispatched@.len() && dispatched@[k] == q;
                            if k < dpre.len() {
                                assert(dpre[k] == q);
                                assert(dpre.contains(q));
                            } else {
                                assert(q == p);
                            }
                        }
                        assert forall|q: Position|
                            should_dispatch(loaded0, loading0, c, r, q) && (q.0 < x || (q.0 == x
                                && q.1 < y) || (q.0 == x && q.1 == y && q.2 < z + 1)) implies #[trigger] dispatched@.contains(
                            q,
                        ) by {
                            if q == p {
                                assert(dispatched@[dispatched@.len() - 1] == p);
                            } else {
                                assert(dpre.contains(q));
                                let k = choose|k: int| 0 <= k < dpre.len() && dpre[k] == q;
                                assert(dispatched@[k] == q);
                            }
                        }
                    }
                } else {
                    proof {
                        if should_dispatch(loaded0, loading0, c, r, p) {
                            assert(data.loading@.contains(p) ==> loading0.contains(p)
                                || dispatched@.contains(p));
                            assert(!dispatched@.contains(p));
                            assert(false);
                        }
                        assert forall|q: Position| #[trigger]
                            dispatched@.contains(q) implies should_dispatch(
                            loaded0,
                            loading0,
                            c,
                            r,
                            q,
                        ) && (q.0 < x || (q.0 == x && q.1 < y) || (q.0 == x && q.1 == y && q.2 < z
                            + 1)) by {}
                        assert forall|q: Position|
                            should_dispatch(loaded0, loading0, c, r, q) && (q.0 < x || (q.0 == x
                                && q.1 < y) || (q.0 == x && q.1 == y && q.2 < z + 1)) implies #[trigger] dispatched@.contains(
                            q,
                        ) by {
                            if q == p {
                                assert(false);
                            }
                        }
                    }
                }
                z += 1;
            }
            y += 1;
        }
        x += 1;
    }

    let ghost loading1 = data.loading;

    // collect the loaded chunks that fell outside the radius
    let mut chunks_to_remove: Vec<Position> = Vec::new();
    let n = data.loaded_chunks.len();
    let mut i: usize = 0;
    while i < n
        invariant
            data.loaded_chunks.wf(),
            n == data.loaded_chunks.entries_seq().len(),
            i <= n,
            loaded0 == data.loaded_chunks@,
            loaded0 == old(data).loaded_chunks@,
            data.loaded_chunks == old(data).loaded_chunks,
            data.colliders == old(data).colliders,
            data.render_objects == old(data).render_objects,
            data.visibility_graphs == old(data).visibility_graphs,
            data.done_loading == old(data).done_loading,
            data.loading == loading1,
            config.wf(),
            observer_in_range(*config, observer_pos),
            c == spec_chunk_position(observer_pos, config.depth as int),
            r == config.load_radius as int,
            center == c,
            radius as int == r,
            forall|a: int, b: int|
                0 <= a < b < chunks_to_remove@.len() ==> chunks_to_remove@[a]
                    != chunks_to_remove@[b],
            forall|q: Position| #[trigger]
                chunks_to_remove@.contains(q) <==> exists|j: int|
                    0 <= j < i && (#[trigger] data.loaded_chunks.entries_seq()[j]).0 == q
                        && !in_radius(c, r, q),
        decreases n - i,
    {
        let entry = data.loaded_chunks.entry_at(i);
        let q = entry.0;
        let inside = center.0 - radius <= q.0 && q.0 <= center.0 + radius && center.1 - radius
            <= q.1 && q.1 <= center.1 + radius && center.2 - radius <= q.2 && q.2 <= center.2
            + radius;
        if !inside {
            proof {
                assert(!chunks_to_remove@.contains(q)) by {
                    if chunks_to_remove@.contains(q) {
                        let j = choose|j: int|
                            0 <= j < i && data.loaded_chunks.entries_seq()[j].0 == q && !in_radius(
                                c,
                                r,
                                q,
                            );
                        assert(data.loaded_chunks.entries_seq()[j].0
                            == data.loaded_chunks.entries_seq()[i as int].0);
                        assert(false);
                    }
                }
            }
            let ghost rpre = chunks_to_remove@;
            chunks_to_remove.push(q);
            proof {
                assert(chunks_to_remove@ == rpre.push(q));
                assert forall|a: int, b: int|
                    0 <= a < b < chunks_to_remove@.len() implies chunks_to_remove@[a]
                    != chunks_to_remove@[b] by {
                    if b == chunks_to_remove@.len() - 1 {
                        assert(rpre[a] == chunks_to_remove@[a]);
                        if chunks_to_remove@[a] == q {
                            assert(rpre.contains(q));
                        }
                    } else {
                        assert(rpre[a] == chunks_to_remove@[a] && rpre[b] == chunks_to_remove@[b]);
                    }
                }
                assert forall|w: Position| #[trigger]
                    chunks_to_remove@.contains(w) implies exists|j: int|
                    0 <= j < i + 1 && (#[trigger] data.loaded_chunks.entries_seq()[j]).0 == w
                        && !in_radius(c, r, w) by {
                    let k = choose|k: int|
                        0 <= k < chunks_to_remove@.len() && chunks_to_remove@[k] == w;
                    if k < rpre.len() {
                        assert(rpre[k] == w);
                        assert(rpre.contains(w));
                    } else {
                        assert(w == q);
                        assert(data.loaded_chunks.entries_seq()[i as int].0 == w);
                    }
                }
                assert forall|w: Position|
                    exists|j: int|
                        0 <= j < i + 1 && (#[trigger] data.loaded_chunks.entries_seq()[j]).0 == w
                            && !in_radius(c, r, w) implies #[trigger] chunks_to_remove@.contains(
                    w,
                ) by {
                    let j = choose|j: int|
                        0 <= j < i + 1 && data.loaded_chunks.entries_seq()[j].0 == w && !in_radius(
                            c,
                            r,
                            w,
                        );
                    if j < i {
                        assert(rpre.contains(w));
                        let t = choose|t: int| 0 <= t < rpre.len() && rpre[t] == w;
                        assert(chunks_to_remove@[t] == w);
                    } else {
                        assert(chunks_to_remove@[chunks_to_remove@.len() - 1] == w);
                    }
                }
            }
        } else {
            proof {
                assert forall|w: Position| #[trigger]
                    chunks_to_remove@.contains(w) implies exists|j: int|
                    0 <= j < i + 1 && (#[trigger] data.loaded_chunks.entries_seq()[j]).0 == w
                        && !in_radius(c, r, w) by {}
                assert forall|w: Position|
                    exists|j: int|
                        0 <= j < i + 1 && (#[trigger] data.loaded_chunks.entries_seq()[j]).0 == w
                            && !in_radius(c, r, w) implies #[trigger] chunks_to_remove@.contains(
                    w,
                ) by {
                    let j = choose|j: int|
                        0 <= j < i + 1 && data.loaded_chunks.entries_seq()[j].0 == w && !in_radius(
                            c,
                            r,
                            w,
                        );
                    assert(j < i);
                }
            }
        }
        i += 1;
    }
    proof {
        // membership in the removal list is exactly "loaded but outside"
        assert forall|q: Position| #[trigger]
            chunks_to_remove@.contains(q) <==> loaded0.contains_key(q) && !in_radius(c, r, q) by {
            crate::util::pos_map::lemma_map_of_contains(data.loaded_chunks.entries_seq(), q);
        }
    }

    // drop them from the store, the collider table and the render-object
    // table together
    let ghost colliders0 = data.colliders@;
    let ghost render0 = data.render_objects@;
    let m = chunks_to_remove.len();
    let mut j: usize = 0;
    while j < m
        invariant
            data.loaded_chunks.wf(),
            data.colliders.wf(),
            data.render_objects.wf(),
            data.visibility_graphs == old(data).visibility_graphs,
            data.done_loading == old(data).done_loading,
            data.loading == loading1,
            m == chunks_to_remove@.len(),
            j <= m,
            forall|a: int, b: int|
                0 <= a < b < chunks_to_remove@.len() ==> chunks_to_remove@[a]
                    != chunks_to_remove@[b],
            forall|q: Position| #[trigger]
                chunks_to_remove@.contains(q) <==> loaded0.contains_key(q) && !in_radius(c, r, q),
            forall|q: Position| #[trigger]
                data.loaded_chunks@.contains_key(q) <==> loaded0.contains_key(q) && !(exists|
                    t: int,
                |
                    0 <= t < j && chunks_to_remove@[t] == q),
            forall|q: Position|
                data.loaded_chunks@.contains_key(q) ==> #[trigger] data.loaded_chunks@[q]
                    == loaded0[q],
            forall|q: Position| #[trigger]
                data.colliders@.contains_key(q) <==> colliders0.contains_key(q) && !(exists|
                    t: int,
                |
                    0 <= t < j && chunks_to_remove@[t] == q),
            forall|q: Position|
                data.colliders@.contains_key(q) ==> #[trigger] data.colliders@[q] == colliders0[q],
            forall|q: Position| #[trigger]
                data.render_objects@.contains_key(q) <==> render0.contains_key(q) && !(exists|
                    t: int,
                |
                    0 <= t < j && chunks_to_remove@[t] == q),
            forall|q: Position|
                data.render_objects@.contains_key(q) ==> #[trigger] data.render_objects@[q]
                    == render0[q],
        decreases m - j,
    {
        let key = chunks_to_remove[j];
        let _ = data.loaded_chunks.remove(&key);
        let _ = data.colliders.remove(&key);
        let _ = data.render_objects.remove(&key);
        proof {
            assert(chunks_to_remove@[j as int] == key);
            assert forall|q: Position| #[trigger]
                data.loaded_chunks@.contains_key(q) <==> loaded0.contains_key(q) && !(exists|
                    t: int,
                |
                    0 <= t < j + 1 && chunks_to_remove@[t] == q) by {
                if q == key {
                    assert(chunks_to_remove@[j as int] == q);
                }
            }
            assert forall|q: Position| #[trigger]
                data.colliders@.contains_key(q) <==> colliders0.contains_key(q) && !(exists|
                    t: int,
                |
                    0 <= t < j + 1 && chunks_to_remove@[t] == q) by {
                if q == key {
                    assert(chunks_to_remove@[j as int] == q);
                }
            }
            assert forall|q: Position| #[trigger]
                data.render_objects@.contains_key(q) <==> render0.contains_key(q) && !(exists|
                    t: int,
                |
                    0 <= t < j + 1 && chunks_to_remove@[t] == q) by {
                if q == key {
                    assert(chunks_to_remove@[j as int] == q);
                }
            }
        }
        j += 1;
    }
    proof {
        assert forall|q: Position| #[trigger]
            data.loaded_chunks@.contains_key(q) <==> loaded0.contains_key(q) && in_radius(
            c,
            r,
            q,
        ) by {
            if loaded0.contains_key(q) && !in_radius(c, r, q) {
                assert(chunks_to_remove@.contains(q));
                let t = choose|t: int|
                    0 <= t < chunks_to_remove@.len() && chunks_to_remove@[t] == q;
            }
            if exists|t: int| 0 <= t < m && chunks_to_remove@[t] == q {
                let t = choose|t: int| 0 <= t < m && chunks_to_remove@[t] == q;
                assert(chunks_to_remove@.contains(q));
            }
        }
        assert forall|q: Position| #[trigger]
            data.colliders@.contains_key(q) <==> colliders0.contains_key(q) && !(
            loaded0.contains_key(q) && !in_radius(c, r, q)) by {
            if loaded0.contains_key(q) && !in_radius(c, r, q) {
                assert(chunks_to_remove@.contains(q));
                let t = choose|t: int|
                    0 <= t < chunks_to_remove@.len() && chunks_to_remove@[t] == q;
            }
            if exists|t: int| 0 <= t < m && chunks_to_remove@[t] == q {
                let t = choose|t: int| 0 <= t < m && chunks_to_remove@[t] == q;
                assert(chunks_to_remove@.contains(q));
            }
        }
        assert forall|q: Position| #[trigger]
            data.render_objects@.contains_key(q) <==> render0.contains_key(q) && !(
            loaded0.contains_key(q) && !in_radius(c, r, q)) by {
            if loaded0.contains_key(q) && !in_radius(c, r, q) {
                assert(chunks_to_remove@.contains(q));
                let t = choose|t: int|
                    0 <= t < chunks_to_remove@.len() && chunks_to_remove@[t] == q;
            }
            if exists|t: int| 0 <= t < m && chunks_to_remove@[t] == q {
                let t = choose|t: int| 0 <= t < m && chunks_to_remove@[t] == q;
                assert(chunks_to_remove@.contains(q));
            }
        }
    }
    proof {
        // a chunk is never both loaded and loading
        assert forall|q: Position| #[trigger]
            data.loading@.contains(q) implies !data.loaded_chunks@.contains_key(q) by {
            if data.loaded_chunks@.contains_key(q) {
                assert(loaded0.contains_key(q));
                if !loading0.contains(q) {
                    assert(dispatched@.contains(q));
                    assert(should_dispatch(loaded0, loading0, c, r, q));
                }
            }
        }
        // queued results still belong to chunks marked loading
        assert forall|i: int|
            0 <= i < data.done_loading.keys().len() implies data.loading@.contains(
            #[trigger] data.done_loading.keys()[i],
        ) by {
            assert(old(data).loading@.contains(old(data).done_loading.keys()[i]));
        }
    }
    dispatched
}


/// Whether `p` is among the first `k` queued coordinates.
pub open spec fn drained(queued: Seq<Position>, k: int, p: Position) -> bool {
    exists|t: int| 0 <= t < k && (#[trigger] queued[t]) == p
}

/// The most results one drain merges, bounding the main thread's per-tick
/// cost.
pub open spec fn drain_cap() -> int {
    5
}

/// The state of the world after the first `k` of the queued results have
/// been merged into `gd`, starting from `gd0`: each merged chunk has left
/// the loading set and entered the chunk store, the visibility-graph table,
/// the collider table and the render-object table with its built parts,
/// and every other binding is untouched.
pub open spec fn drain_state(
    gd0: GameData,
    gd: GameData,
    queued: Seq<Position>,
    results: Map<Position, ChunkBuildResult>,
    k: int,
) -> bool {
    &&& gd.done_loading.keys() == queued.skip(k)
    &&& forall|p: Position| #[trigger]
        gd.done_loading.results_map().contains_key(p) <==> results.contains_key(p) && !drained(
            queued,
            k,
            p,
        )
    &&& forall|p: Position| #[trigger]
        gd.done_loading.results_map().contains_key(p) ==> gd.done_loading.results_map()[p]
            == results[p]
    &&& forall|p: Position| #[trigger]
        gd.loading@.contains(p) <==> gd0.loading@.contains(p) && !drained(queued, k, p)
    &&& forall|p: Position|
        drained(queued, k, p) ==> (#[trigger] gd.loaded_chunks@.contains_key(p))
            && gd.loaded_chunks@[p] == results[p].chunk && gd.visibility_graphs@.contains_key(p)
            && gd.visibility_graphs@[p] == results[p].visibility_graph
            && gd.colliders@.contains_key(p) && gd.colliders@[p] == results[p].collider
            && gd.render_objects@.contains_key(p) && gd.render_objects@[p] == results[p].mesh
    &&& forall|p: Position|
        !drained(queued, k, p) ==> (#[trigger] gd.loaded_chunks@.contains_key(p)
            == gd0.loaded_chunks@.contains_key(p)) && (gd0.loaded_chunks@.contains_key(p)
            ==> gd.loaded_chunks@[p] == gd0.loaded_chunks@[p])
    &&& forall|p: Position|
        !drained(queued, k, p) ==> (#[trigger] gd.visibility_graphs@.contains_key(p)
            == gd0.visibility_graphs@.contains_key(p)) && (gd0.visibility_graphs@.contains_key(p)
            ==> gd.visibility_graphs@[p] == gd0.visibility_graphs@[p])
    &&& forall|p: Position|
        !drained(queued, k, p) ==> (#[trigger] gd.colliders@.contains_key(p)
            == gd0.colliders@.contains_key(p)) && (gd0.colliders@.contains_key(p)
            ==> gd.colliders@[p] == gd0.colliders@[p])
    &&& forall|p: Position|
        !drained(queued, k, p) ==> (#[trigger] gd.render_objects@.contains_key(p)
            == gd0.render_objects@.contains_key(p)) && (gd0.render_objects@.contains_key(p)
            ==> gd.render_objects@[p] == gd0.render_objects@[p])
}

/// Merging the next queued result extends the drained prefix by one.
proof fn lemma_drain_step(
    gd0: GameData,
    gd1: GameData,
    gd2: GameData,
    queued: Seq<Position>,
    results: Map<Position, ChunkBuildResult>,
    k: int,
)
    requires
        drain_state(gd0, gd1, queued, results, k),
        0 <= k < queued.len(),
        forall|i: int, j: int| 0 <= i < j < queued.len() ==> queued[i] != queued[j],
        forall|i: int| 0 <= i < queued.len() ==> results.contains_key(#[trigger] queued[i]),
        gd2.loaded_chunks@ == gd1.loaded_chunks@.insert(queued[k], results[queued[k]].chunk),
        gd2.visibility_graphs@ == gd1.visibility_graphs@.insert(
            queued[k],
            results[queued[k]].visibility_graph,
        ),
        gd2.colliders@ == gd1.colliders@.insert(queued[k], results[queued[k]].collider),
        gd2.render_objects@ == gd1.render_objects@.insert(queued[k], results[queued[k]].mesh),
        forall|x: Position| #[trigger]
            gd2.loading@.contains(x) <==> gd1.loading@.contains(x) && x != queued[k],
        gd2.done_loading.keys() == gd1.done_loading.keys().drop_first(),
        forall|x: Position| #[trigger]
            gd2.done_loading.results_map().contains_key(x)
                <==> gd1.done_loading.results_map().contains_key(x) && x != queued[k],
        forall|x: Position| #[trigger]
            gd2.done_loading.results_map().contains_key(x)
                ==> gd2.done_loading.results_map()[x] == gd1.done_loading.results_map()[x],
    ensures
        drain_state(gd0, gd2, queued, results, k + 1),
{
    let p0 = queued[k];
    assert(!drained(queued, k, p0)) by {
        if drained(queued, k, p0) {
            let t = choose|t: int| 0 <= t < k && (#[trigger] queued[t]) == p0;
            assert(queued[t] == queued[k]);
            assert(false);
        }
    }
    assert(drained(queued, k + 1, p0)) by {
        assert(queued[k] == p0);
    }
    assert forall|p: Position| drained(queued, k + 1, p) && p != p0 implies drained(
        queued,
        k,
        p,
    ) by {
        let t = choose|t: int| 0 <= t < k + 1 && (#[trigger] queued[t]) == p;
        assert(t != k);
    }
    assert forall|p: Position| drained(queued, k, p) implies drained(queued, k + 1, p) by {
        let t = choose|t: int| 0 <= t < k && (#[trigger] queued[t]) == p;
        assert(0 <= t < k + 1 && queued[t] == p);
    }
    assert(gd2.done_loading.keys() =~= queued.skip(k + 1));
    assert forall|p: Position| #[trigger]
        gd2.done_loading.results_map().contains_key(p) <==> results.contains_key(p) && !drained(
        queued,
        k + 1,
        p,
    ) by {
        assert(gd1.done_loading.results_map().contains_key(p) <==> results.contains_key(p)
            && !drained(queued, k, p));
    }
    assert forall|p: Position| #[trigger]
        gd2.loading@.contains(p) <==> gd0.loading@.contains(p) && !drained(
        queued,
        k + 1,
        p,
    ) by {
        assert(gd1.loading@.contains(p) <==> gd0.loading@.contains(p) && !drained(queued, k, p));
    }
    assert forall|p: Position|
        drained(queued, k + 1, p) implies (#[trigger] gd2.loaded_chunks@.contains_key(p))
        && gd2.loaded_chunks@[p] == results[p].chunk && gd2.visibility_graphs@.contains_key(p)
        && gd2.visibility_graphs@[p] == results[p].visibility_graph
        && gd2.colliders@.contains_key(p) && gd2.colliders@[p] == results[p].collider
        && gd2.render_objects@.contains_key(p) && gd2.render_objects@[p] == results[p].mesh by {
        if p != p0 {
            assert(drained(queued, k, p));
            assert(gd1.loaded_chunks@.contains_key(p));
        }
    }
    assert forall|p: Position|
        !drained(queued, k + 1, p) implies (#[trigger] gd2.loaded_chunks@.contains_key(p)
        == gd0.loaded_chunks@.contains_key(p)) && (gd0.loaded_chunks@.contains_key(p)
        ==> gd2.loaded_chunks@[p] == gd0.loaded_chunks@[p]) by {
        assert(p != p0);
        assert(!drained(queued, k, p));
        assert(gd1.loaded_chunks@.contains_key(p) == gd0.loaded_chunks@.contains_key(p));
    }
    assert forall|p: Position|
        !drained(queued, k + 1, p) implies (#[trigger] gd2.visibility_graphs@.contains_key(p)
        == gd0.visibility_graphs@.contains_key(p)) && (gd0.visibility_graphs@.contains_key(p)
        ==> gd2.visibility_graphs@[p] == gd0.visibility_graphs@[p]) by {
        assert(p != p0);
        assert(!drained(queued, k, p));
        assert(gd1.visibility_graphs@.contains_key(p) == gd0.visibility_graphs@.contains_key(p));
    }
    assert forall|p: Position|
        !drained(queued, k + 1, p) implies (#[trigger] gd2.colliders@.contains_key(p)
        == gd0.colliders@.contains_key(p)) && (gd0.colliders@.contains_key(p)
        ==> gd2.colliders@[p] == gd0.colliders@[p]) by {
        assert(p != p0);
        assert(!drained(queued, k, p));
        assert(gd1.colliders@.contains_key(p) == gd0.colliders@.contains_key(p));
    }
    assert forall|p: Position|
        !drained(queued, k + 1, p) implies (#[trigger] gd2.render_objects@.contains_key(p)
        == gd0.render_objects@.contains_key(p)) && (gd0.render_objects@.contains_key(p)
        ==> gd2.render_objects@[p] == gd0.render_objects@[p]) by {
        assert(p != p0);
        assert(!drained(queued, k, p));
        assert(gd1.render_objects@.contains_key(p) == gd0.render_objects@.contains_key(p));
    }
}

/// Drains up to the cap of oldest completed results into live state: each
/// drained chunk leaves the loading set and lands in the chunk store, the
/// visibility-graph table, the collider table and the render-object table
/// in one step; everything else is untouched.
pub fn check_done_load_world(data: &mut GameData)
    requires
        old(data).wf(),
    ensures
        final(data).wf(),
        ({
            let queued = old(data).done_loading.keys();
            let results = old(data).done_loading.results_map();
            let k = if queued.len() < drain_cap() {
                queued.len() as int
            } else {
                drain_cap()
            };
            drain_state(*old(data), *final(data), queued, results, k)
        }),
{
    proof {
        lemma_triple_eq_reflects();
        old(data).done_loading.lemma_keys();
    }
    let ghost queued = old(data).done_loading.keys();
    let ghost results = old(data).done_loading.results_map();
    proof {
        assert(queued.skip(0) =~= queued);
        assert(drain_state(*old(data), *old(data), queued, results, 0));
    }
    let mut count: usize = 0;
    let mut stop = false;
    while count < 5 && !stop
        invariant
            count <= 5,
            eq_reflects::<Position>(),
            data.loaded_chunks.wf(),
            data.visibility_graphs.wf(),
            data.colliders.wf(),
            data.render_objects.wf(),
            data.loading.wf(),
            data.done_loading.wf(),
            queued == old(data).done_loading.keys(),
            results == old(data).done_loading.results_map(),
            forall|i: int, j: int| 0 <= i < j < queued.len() ==> queued[i] != queued[j],
            forall|i: int| 0 <= i < queued.len() ==> results.contains_key(#[trigger] queued[i]),
            forall|i: int|
                0 <= i < queued.len() ==> old(data).loading@.contains(#[trigger] queued[i]),
            forall|p: Position| #[trigger]
                old(data).loading@.contains(p) ==> !old(data).loaded_chunks@.contains_key(p),
            stop ==> count as int == queued.len() && queued.len() < drain_cap(),
            !stop ==> count as int <= queued.len(),
            drain_state(*old(data), *data, queued, results, count as int),
        decreases 5 - count + (if stop {
            0int
        } else {
            1int
        }),
    {
        let ghost gd1 = *data;
        let ghost cpre = count as int;
        match data.done_loading.pop_front() {
            Some(merged) => {
                let chunk_pos = merged.0;
                let result = merged.1;
                proof {
                    assert(gd1.done_loading.keys() == queued.skip(cpre));
                    assert(gd1.done_loading.keys()[0] == queued[cpre]);
                    assert(chunk_pos == queued[cpre]);
                    assert(gd1.done_loading.results_map().contains_key(chunk_pos));
                    assert(result == results[chunk_pos]);
                }
                data.loading.remove(&chunk_pos);
                data.loaded_chunks.insert(chunk_pos, result.chunk);
                data.visibility_graphs.insert(chunk_pos, result.visibility_graph);
                data.colliders.insert(chunk_pos, result.collider);
                data.render_objects.insert(chunk_pos, result.mesh);
                count += 1;
                proof {
                    assert(data.loaded_chunks@ == gd1.loaded_chunks@.insert(
                        queued[cpre],
                        results[queued[cpre]].chunk,
                    ));
                    assert(data.visibility_graphs@ == gd1.visibility_graphs@.insert(
                        queued[cpre],
                        results[queued[cpre]].visibility_graph,
                    ));
                    assert(data.colliders@ == gd1.colliders@.insert(
                        queued[cpre],
                        results[queued[cpre]].collider,
                    ));
                    assert(data.render_objects@ == gd1.render_objects@.insert(
                        queued[cpre],
                        results[queued[cpre]].mesh,
                    ));
                    lemma_drain_step(*old(data), gd1, *data, queued, results, cpre);
                    assert(drain_state(*old(data), *data, queued, results, count as int));
                }
            },
            None => {
                proof {
                    assert(queued.skip(count as int).len() == 0);
                    assert(data.loading == gd1.loading);
                    assert(data.loaded_chunks == gd1.loaded_chunks);
                    assert(data.visibility_graphs == gd1.visibility_graphs);
                    assert(data.colliders == gd1.colliders);
                    assert(data.render_objects == gd1.render_objects);
                    assert(data.done_loading.keys() == gd1.done_loading.keys());
                    assert(data.done_loading.results_map() == gd1.done_loading.results_map());
                    assert(drain_state(*old(data), *data, queued, results, count as int));
                }
                stop = true;
            },
        }
    }
    proof {
        let k = if queued.len() < drain_cap() {
            queued.len() as int
        } else {
            drain_cap()
        };
        assert(count as int == k);
        assert(drain_state(*old(data), *data, queued, results, k));
        // merging never leaves a chunk both loaded and loading, and the
        // remaining queued results still belong to loading chunks
        assert forall|q: Position| #[trigger]
            data.loading@.contains(q) implies !data.loaded_chunks@.contains_key(q) by {
            assert(old(data).loading@.contains(q) && !drained(queued, k, q));
        }
        assert forall|i: int|
            0 <= i < data.done_loading.keys().len() implies data.loading@.contains(
            #[trigger] data.done_loading.keys()[i],
        ) by {
            assert(data.done_loading.keys()[i] == queued[i + k]);
            assert(old(data).loading@.contains(queued[i + k]));
            assert(!drained(queued, k, queued[i + k])) by {
                if drained(queued, k, queued[i + k]) {
                    let t = choose|t: int| 0 <= t < k && (#[trigger] queued[t]) == queued[i + k];
                    assert(queued[t] == queued[i + k]);
                    assert(false);
                }
            }
        }
    }
}

/// One background unit of work: generate the chunk, mesh it, build its
/// collider and its visibility graph. A pure function of the configuration,
/// the coordinate and the sampled density field.
pub fn build_chunk(config: &ChunkConfig, chunk_pos: Position, field: &SolidField) -> (r:
    ChunkBuildResult)
    requires
        config.wf(),
        field.wf(),
        chunk_world_in_range(config.depth as int, chunk_pos),
        field_covers_chunk(*field, config.depth as int, chunk_pos),
        field_covers_foliage(*field, config.depth as int, chunk_pos),
    ensures
        r.pos == chunk_pos,
        r.chunk.wf(),
        generated_chunk(*field, config.depth as int, chunk_pos, r.chunk@),
        r.mesh.vertices@ == mesh_vertices(
            config.dict@,
            r.chunk.entries_seq(),
            r.chunk@,
            config.depth as int,
        ),
        r.mesh.indices@ == mesh_indices(
            config.dict@,
            r.chunk.entries_seq(),
            r.chunk@,
            config.depth as int,
        ),
        forall|a: Side| #[trigger] r.visibility_graph.reach(a, a),
        forall|a: Side, b: Side| #[trigger]
            r.visibility_graph.reach(a, b) == r.visibility_graph.reach(b, a),
        boundary_sealed(config.dict@, r.chunk@, config.depth as int) ==> forall|a: Side, b: Side|
            #[trigger] r.visibility_graph.reach(a, b) == (a == b),
        forall|a: Side, b: Side| #[trigger]
            r.visibility_graph.reach(a, b) == (a == b || crate::chunk::culling::faces_connected(
                config.dict@,
                r.chunk@,
                config.depth as int,
                a,
                b,
            )),
        opaque_blocks(config.dict@, r.chunk@, config.depth as int).len() == 0 ==> r.collider
            == Collider::Placeholder,
        opaque_blocks(config.dict@, r.chunk@, config.depth as int).len() > 0 ==> (r.collider
            matches Collider::Compound { translation, blocks } && blocks@ == opaque_blocks(
            config.dict@,
            r.chunk@,
            config.depth as int,
        ) && translation == ((
            (chunk_pos.0 * config.depth) as i32,
            (chunk_pos.1 * config.depth) as i32,
            (chunk_pos.2 * config.depth) as i32,
        ))),
{
    let chunk = load_chunk(config, &chunk_pos, field);
    let mesh = mesh_chunk(&chunk, config, calc_lod());
    let collider = calculate_collider(&chunk, &chunk_pos, config);
    let visibility_graph = VisibilityGraph::from_chunk(config, &chunk);
    ChunkBuildResult { pos: chunk_pos, chunk, visibility_graph, mesh, collider }
}

/// Loader idempotence: after one load tick, a second tick with an unmoved
/// observer finds every in-radius chunk already loaded or loading and so
/// dispatches nothing — a chunk key in the loading set or the chunk store
/// is never re-dispatched.
pub proof fn lemma_load_world_idempotent(
    loaded0: Map<Position, ChunkData>,
    loading0: Seq<Position>,
    loaded1: Map<Position, ChunkData>,
    loading1: Seq<Position>,
    dispatched: Seq<Position>,
    center: Position,
    radius: int,
)
    requires
        forall|p: Position| #[trigger]
            dispatched.contains(p) <==> should_dispatch(loaded0, loading0, center, radius, p),
        forall|p: Position| #[trigger]
            loading1.contains(p) <==> loading0.contains(p) || dispatched.contains(p),
        forall|p: Position| #[trigger]
            loaded1.contains_key(p) <==> loaded0.contains_key(p) && in_radius(center, radius, p),
    ensures
        forall|p: Position| !should_dispatch(loaded1, loading1, center, radius, p),
{
    assert forall|p: Position| !should_dispatch(loaded1, loading1, center, radius, p) by {
        if in_radius(center, radius, p) {
            if loaded0.contains_key(p) {
                assert(loaded1.contains_key(p));
            } else if loading0.contains(p) {
                assert(loading1.contains(p));
            } else {
                assert(dispatched.contains(p));
                assert(loading1.contains(p));
            }
        }
    }
}

/// Eviction atomicity: a chunk evicted by the load tick is absent from the
/// chunk store, the collider table and the render-object table at once; no
/// state in between is observable.
pub proof fn lemma_eviction_atomic(
    loaded0: Map<Position, ChunkData>,
    loaded1: Map<Position, ChunkData>,
    colliders1: Map<Position, Collider>,
    render1: Map<Position, Mesh>,
    colliders0: Map<Position, Collider>,
    render0: Map<Position, Mesh>,
    center: Position,
    radius: int,
)
    requires
        forall|p: Position| #[trigger]
            loaded1.contains_key(p) <==> loaded0.contains_key(p) && in_radius(center, radius, p),
        forall|p: Position| #[trigger]
            colliders1.contains_key(p) <==> colliders0.contains_key(p) && !(loaded0.contains_key(
                p,
            ) && !in_radius(center, radius, p)),
        forall|p: Position| #[trigger]
            render1.contains_key(p) <==> render0.contains_key(p) && !(loaded0.contains_key(p)
                && !in_radius(center, radius, p)),
    ensures
        forall|p: Position|
            loaded0.contains_key(p) && !in_radius(center, radius, p) ==> !(
            #[trigger] loaded1.contains_key(p)) && !colliders1.contains_key(p)
                && !render1.contains_key(p),
{
}

} // verus!
