//! The block registry: immutable descriptors of every block type.

use vstd::prelude::*;

verus! {

use crate::util::pos_map::{map_of, distinct_keys, lemma_map_of_index, lemma_map_of_not_contains,
    lemma_map_of_update};

/// How a block type turns into geometry. Air contributes none; a cube emits
/// up to six faces.
#[derive(Clone, Copy, PartialEq, Eq, Structural, Debug)]
pub enum BlockModel {
    Air,
    Cube,
}

/// The immutable descriptor of one block type.
pub struct Block {
    /// The meshing strategy of this block type.
    pub model: BlockModel,
    /// Whether sight and light pass through it; a face against a
    /// transparent neighbor is emitted, one against an opaque neighbor is
    /// culled.
    pub transparent: bool,
    /// A human-readable name.
    pub ident: String,
    /// The origin of the block's texture tile, in atlas cells of one
    /// sixteenth of the atlas per axis.
    pub uv: [u32; 2],
}

impl Block {
    /// The default descriptor: air, fully transparent, no geometry.
    pub open spec fn is_default_air(&self) -> bool {
        &&& self.model == BlockModel::Air
        &&& self.transparent
    }
}

impl Default for Block {
    /// The "air" descriptor that stands in for any unknown identifier.
    fn default() -> (r: Self)
        ensures
            r.is_default_air(),
            r.ident@ == Seq::<char>::empty(),
            r.uv == [0u32, 0u32],
    {
        Block { model: BlockModel::Air, transparent: true, ident: String::new(), uv: [0, 0] }
    }
}

/// The registry: block-type identifier to descriptor. Identifier `0` is
/// reserved for air and is always present, transparent and without geometry,
/// so lookups can fall back to it and never fail.
pub struct BlockDictionary {
    entries: Vec<(u32, Block)>,
}

impl BlockDictionary {
    /// The registered entries, in registration order.
    pub closed spec fn entries_seq(&self) -> Seq<(u32, Block)> {
        self.entries@
    }

    /// The registry contents as a map.
    pub open spec fn view(&self) -> Map<u32, Block> {
        map_of(self.entries_seq())
    }

    /// Identifiers are distinct and `0` is the air descriptor.
    pub open spec fn wf(&self) -> bool {
        &&& distinct_keys(self.entries_seq())
        &&& self@.contains_key(0)
        &&& self@[0].is_default_air()
    }

    /// A registry holding only the reserved air descriptor.
    pub fn new() -> (r: Self)
        ensures
            r.wf(),
            r@.dom() == Set::<u32>::empty().insert(0),
            r@[0].is_default_air(),
            r@[0].ident@ == Seq::<char>::empty(),
            r@[0].uv == [0u32, 0u32],
    {
        let air = Block::default();
        let mut entries: Vec<(u32, Block)> = Vec::new();
        entries.push((0, air));
        proof {
            assert(entries@.drop_last() =~= Seq::<(u32, Block)>::empty());
            assert(map_of(Seq::<(u32, Block)>::empty()) =~= Map::<u32, Block>::empty());
            assert(map_of(entries@) =~= Map::<u32, Block>::empty().insert(0, air));
            assert(map_of(entries@).dom() =~= Set::<u32>::empty().insert(0));
        }
        Self { entries }
    }

    /// Registers `block` under `block_id`, replacing any previous
    /// descriptor. Identifier `0` keeps its air reservation: a write to it
    /// must itself be air-like.
    pub fn insert(&mut self, block_id: u32, block: Block)
        requires
            old(self).wf(),
            block_id == 0 ==> block.is_default_air(),
        ensures
            final(self).wf(),
            final(self)@ == old(self)@.insert(block_id, block),
    {
        let mut i: usize = 0;
        while i < self.entries.len()
            invariant
                0 <= i <= self.entries_seq().len(),
                self.entries_seq() == old(self).entries_seq(),
                old(self).wf(),
                block_id == 0 ==> block.is_default_air(),
                forall|j: int| 0 <= j < i ==> self.entries_seq()[j].0 != block_id,
            decreases self.entries_seq().len() - i,
        {
            if self.entries[i].0 == block_id {
                self.entries[i] = (block_id, block);
                proof {
                    assert(self.entries_seq() =~= old(self).entries_seq().update(
                        i as int,
                        (old(self).entries_seq()[i as int].0, block),
                    ));
                    lemma_map_of_update(old(self).entries_seq(), i as int, block);
                    assert forall|a: int, b: int|
                        0 <= a < b < self.entries_seq().len() implies self.entries_seq()[a].0
                        != self.entries_seq()[b].0 by {
                        assert(self.entries_seq()[a].0 == old(self).entries_seq()[a].0);
                        assert(self.entries_seq()[b].0 == old(self).entries_seq()[b].0);
                    }
                    if block_id != 0 {
                        assert(self@.contains_key(0) && self@[0].is_default_air());
                    }
                }
                return ;
            }
            i += 1;
        }
        self.entries.push((block_id, block));
        proof {
            lemma_map_of_not_contains(old(self).entries_seq(), block_id);
            assert(self.entries_seq().drop_last() =~= old(self).entries_seq());
            assert forall|a: int, b: int|
                0 <= a < b < self.entries_seq().len() implies self.entries_seq()[a].0
                != self.entries_seq()[b].0 by {
                if b < self.entries_seq().len() - 1 {
                    assert(old(self).entries_seq()[a].0 != old(self).entries_seq()[b].0);
                } else {
                    assert(old(self).entries_seq()[a].0 != block_id);
                }
            }
            if block_id != 0 {
                assert(self@.contains_key(0) && self@[0].is_default_air());
            }
        }
    }

    /// The descriptor registered under `block_id`, if any.
    pub fn get(&self, block_id: u32) -> (r: Option<&Block>)
        requires
            self.wf(),
        ensures
            match r {
                Some(b) => self@.contains_key(block_id) && *b == self@[block_id],
                None => !self@.contains_key(block_id),
            },
    {
        let mut i: usize = 0;
        while i < self.entries.len()
            invariant
                0 <= i <= self.entries_seq().len(),
                distinct_keys(self.entries_seq()),
                forall|j: int| 0 <= j < i ==> self.entries_seq()[j].0 != block_id,
            decreases self.entries_seq().len() - i,
        {
            if self.entries[i].0 == block_id {
                proof {
                    lemma_map_of_index(self.entries_seq(), i as int);
                }
                return Some(&self.entries[i].1);
            }
            i += 1;
        }
        proof {
            lemma_map_of_not_contains(self.entries_seq(), block_id);
        }
        None
    }

    /// The descriptor for `block_id`, falling back to the reserved air
    /// descriptor for an unknown identifier. Never fails.
    pub fn lookup(&self, block_id: u32) -> (r: &Block)
        requires
            self.wf(),
        ensures
            *r == if self@.contains_key(block_id) {
                self@[block_id]
            } else {
                self@[0u32]
            },
    {
        match self.get(block_id) {
            Some(b) => b,
            None => {
                match self.get(0) {
                    Some(air) => air,
                    None => vstd::pervasive::unreached(),
                }
            },
        }
    }

    /// The default world registry: air plus opaque grass, stone and dirt
    /// cubes, tiled left to right in the texture atlas.
    pub fn with_defaults() -> (r: Self)
        ensures
            r.wf(),
            r@.contains_key(1) && r@[1].model == BlockModel::Cube && !r@[1].transparent,
            r@.contains_key(2) && r@[2].model == BlockModel::Cube && !r@[2].transparent,
            r@.contains_key(3) && r@[3].model == BlockModel::Cube && !r@[3].transparent,
    {
        let mut dict = Self::new();
        dict.insert(
            1,
            Block {
                model: BlockModel::Cube,
                transparent: false,
                ident: "grass".to_owned(),
                uv: [0, 0],
            },
        );
        dict.insert(
            2,
            Block {
                model: BlockModel::Cube,
                transparent: false,
                ident: "stone".to_owned(),
                uv: [1, 0],
            },
        );
        dict.insert(
            3,
            Block {
                model: BlockModel::Cube,
                transparent: false,
                ident: "dirt".to_owned(),
                uv: [2, 0],
            },
        );
        dict
    }
}

} // verus!
