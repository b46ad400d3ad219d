//! A chunk: a dense 16 x 16 x 16 block grid with running counts of its
//! non-air and light-emitting voxels, so emptiness and glow are answered in
//! constant time.

use crate::block::{Block, BlockAction, BlockTable};
use crate::coords::LocalCoords;
use crate::count::{
    count_if, count_one, lemma_count_bounds, lemma_count_member, lemma_count_update,
    lemma_count_zero,
};
use vstd::pervasive::VecAdditionalExecFns;
use vstd::prelude::*;

verus! {

/// How many voxels a chunk holds.
pub const CHUNK_VOLUME: u16 = 4096;

/// Whether a voxel counts as material.
pub open spec fn is_non_air(b: Block) -> bool {
    b != Block::Air
}

/// Whether a voxel emits light under the property table `t`.
pub open spec fn is_glowing_in(t: BlockTable) -> spec_fn(Block) -> bool {
    |b: Block| t.spec_data(b).spec_is_glowing()
}

/// A dense cubic block grid with running counts.
pub struct Chunk {
    blocks: Vec<Block>,
    non_air_count: u16,
    glowing_count: u16,
}

impl Chunk {
    /// The grid as a sequence of 4096 blocks, indexed by
    /// [`LocalCoords::index`].
    pub closed spec fn view(self) -> Seq<Block> {
        self.blocks@
    }

    /// Well-formed under table `t`: full-size grid, counts in step with the
    /// grid.
    pub closed spec fn wf(self, t: BlockTable) -> bool {
        &&& self.blocks@.len() == CHUNK_VOLUME
        &&& self.non_air_count == count_if(self.blocks@, |b: Block| is_non_air(b))
        &&& self.glowing_count == count_if(self.blocks@, is_glowing_in(t))
    }

    /// A well-formed chunk's grid always holds exactly 4096 voxels.
    pub proof fn lemma_wf_len(self, t: BlockTable)
        requires
            self.wf(t),
        ensures
            self@.len() == CHUNK_VOLUME,
    {
    }

    pub open spec fn spec_block(self, l: LocalCoords) -> Block {
        self.view()[l.index()]
    }

    pub open spec fn spec_is_empty(self) -> bool {
        count_if(self.view(), |b: Block| is_non_air(b)) == 0
    }

    pub open spec fn spec_is_glowing(self, t: BlockTable) -> bool {
        count_if(self.view(), is_glowing_in(t)) != 0
    }

    /// An all-air chunk.
    pub fn new(t: &BlockTable) -> (r: Chunk)
        requires
            t.wf(),
        ensures
            r.wf(*t),
            r@ =~= Seq::new(CHUNK_VOLUME as nat, |i: int| Block::Air),
            r.spec_is_empty(),
    {
        let blocks: Vec<Block> = vec![Block::Air; CHUNK_VOLUME as usize];
        proof {
            lemma_count_zero(blocks@, |b: Block| is_non_air(b));
            lemma_count_zero(blocks@, is_glowing_in(*t));
        }
        Chunk { blocks, non_air_count: 0, glowing_count: 0 }
    }

    /// A chunk holding `b` in every voxel.
    pub fn filled(b: Block, t: &BlockTable) -> (r: Chunk)
        requires
            t.wf(),
        ensures
            r.wf(*t),
            r@ =~= Seq::new(CHUNK_VOLUME as nat, |i: int| b),
    {
        let blocks: Vec<Block> = vec![b; CHUNK_VOLUME as usize];
        let non_air_count: u16 = if b != Block::Air {
            proof {
                crate::count::lemma_count_all(blocks@, |q: Block| is_non_air(q));
            }
            CHUNK_VOLUME
        } else {
            proof {
                lemma_count_zero(blocks@, |q: Block| is_non_air(q));
            }
            0
        };
        let glowing_count: u16 = if t.data(b).is_glowing() {
            proof {
                crate::count::lemma_count_all(blocks@, is_glowing_in(*t));
            }
            CHUNK_VOLUME
        } else {
            proof {
                lemma_count_zero(blocks@, is_glowing_in(*t));
            }
            0
        };
        Chunk { blocks, non_air_count, glowing_count }
    }

    /// The block at `l`.
    pub fn block(&self, l: LocalCoords, t: &BlockTable) -> (r: Block)
        requires
            self.wf(*t),
            l.wf(),
        ensures
            r == self.spec_block(l),
    {
        self.blocks[l.flat_index()]
    }

    /// Whether every voxel is air; a true result means exactly that, by the
    /// running count.
    pub fn is_empty(&self, t: &BlockTable) -> (r: bool)
        requires
            self.wf(*t),
        ensures
            r == self.spec_is_empty(),
            r <==> (forall|i: int| 0 <= i < self@.len() ==> #[trigger] self@[i] == Block::Air),
    {
        proof {
            lemma_count_zero(self.blocks@, |b: Block| is_non_air(b));
        }
        self.non_air_count == 0
    }

    /// Whether any voxel emits light under table `t`.
    pub fn is_glowing(&self, t: &BlockTable) -> (r: bool)
        requires
            self.wf(*t),
        ensures
            r == self.spec_is_glowing(*t),
    {
        self.glowing_count != 0
    }

    /// Applies `action` at `l` if the target voxel admits it, and reports
    /// whether it did; the counts follow the grid.
    pub fn apply(&mut self, l: LocalCoords, action: &BlockAction, t: &BlockTable) -> (r: bool)
        requires
            old(self).wf(*t),
            l.wf(),
            t.wf(),
        ensures
            final(self).wf(*t),
            r == old(self).spec_block(l).spec_action_applies(*action),
            final(self)@ == if r {
                old(self)@.update(l.index(), Block::spec_apply_unchecked(*action))
            } else {
                old(self)@
            },
    {
        let i = l.flat_index();
        let mut block = self.blocks[i];
        let prev = block;
        if block.apply(action) {
            let curr = block;
            self.blocks.set(i, curr);
            proof {
                lemma_count_update(old(self).blocks@, |b: Block| is_non_air(b), l.index(), curr);
                lemma_count_update(old(self).blocks@, is_glowing_in(*t), l.index(), curr);
                lemma_count_member(old(self).blocks@, |b: Block| is_non_air(b), l.index());
                lemma_count_member(old(self).blocks@, is_glowing_in(*t), l.index());
                lemma_count_bounds(old(self).blocks@, |b: Block| is_non_air(b));
                lemma_count_bounds(old(self).blocks@, is_glowing_in(*t));
                lemma_count_bounds(self.blocks@, |b: Block| is_non_air(b));
                lemma_count_bounds(self.blocks@, is_glowing_in(*t));
            }
            self.adjust_counts(prev, curr, t);
            true
        } else {
            false
        }
    }

    /// Applies `action` at `l` unconditionally; used when replaying the edit
    /// log onto a freshly generated chunk.
    pub fn apply_unchecked(&mut self, l: LocalCoords, action: &BlockAction, t: &BlockTable)
        requires
            old(self).wf(*t),
            l.wf(),
            t.wf(),
        ensures
            final(self).wf(*t),
            final(self)@ == old(self)@.update(l.index(), Block::spec_apply_unchecked(*action)),
    {
        let i = l.flat_index();
        let prev = self.blocks[i];
        let mut block = prev;
        block.apply_unchecked(action);
        let curr = block;
        self.blocks.set(i, curr);
        proof {
            lemma_count_update(old(self).blocks@, |b: Block| is_non_air(b), l.index(), curr);
            lemma_count_update(old(self).blocks@, is_glowing_in(*t), l.index(), curr);
            lemma_count_member(old(self).blocks@, |b: Block| is_non_air(b), l.index());
            lemma_count_member(old(self).blocks@, is_glowing_in(*t), l.index());
            lemma_count_bounds(old(self).blocks@, |b: Block| is_non_air(b));
            lemma_count_bounds(old(self).blocks@, is_glowing_in(*t));
            lemma_count_bounds(self.blocks@, |b: Block| is_non_air(b));
            lemma_count_bounds(self.blocks@, is_glowing_in(*t));
        }
        self.adjust_counts(prev, curr, t);
    }

    fn adjust_counts(&mut self, prev: Block, curr: Block, t: &BlockTable)
        requires
            t.wf(),
            old(self).non_air_count >= count_one(|b: Block| is_non_air(b), prev),
            old(self).non_air_count - count_one(|b: Block| is_non_air(b), prev) + count_one(
                |b: Block| is_non_air(b),
                curr,
            ) <= u16::MAX,
            old(self).glowing_count >= count_one(is_glowing_in(*t), prev),
            old(self).glowing_count - count_one(is_glowing_in(*t), prev) + count_one(
                is_glowing_in(*t),
                curr,
            ) <= u16::MAX,
        ensures
            final(self).blocks == old(self).blocks,
            final(self).non_air_count == old(self).non_air_count - count_one(
                |b: Block| is_non_air(b),
                prev,
            ) + count_one(|b: Block| is_non_air(b), curr),
            final(self).glowing_count == old(self).glowing_count - count_one(
                is_glowing_in(*t),
                prev,
            ) + count_one(is_glowing_in(*t), curr),
    {
        if prev != Block::Air {
            self.non_air_count = self.non_air_count - 1;
        }
        if curr != Block::Air {
            self.non_air_count = self.non_air_count + 1;
        }
        if t.data(prev).is_glowing() {
            self.glowing_count = self.glowing_count - 1;
        }
        if t.data(curr).is_glowing() {
            self.glowing_count = self.glowing_count + 1;
        }
    }
}

} // verus!
