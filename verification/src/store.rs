//! The sparse chunk store: a map from chunk coordinates to owned chunks. A
//! coordinate is either absent or bound to a well-formed chunk with at least
//! one non-air voxel — an empty chunk is never retained.

use crate::block::{Block, BlockTable};
use crate::chunk::Chunk;
use crate::coord_map::CoordMap;
use crate::coords::{ChunkCoords, GlobalCoords, LocalCoords};
use crate::coords::{chunk_coords, local_coords, spec_chunk_coords, spec_local_coords};
use vstd::prelude::*;

verus! {

/// The sparse map from chunk coordinates to owned chunks.
pub struct ChunkStore {
    chunks: CoordMap<Chunk>,
}

impl ChunkStore {
    /// Well-formed under table `t`: every stored chunk is well formed and
    /// holds at least one non-air voxel.
    pub closed spec fn wf(self, t: BlockTable) -> bool {
        &&& self.chunks.wf()
        &&& forall|c: ChunkCoords|
            self.chunks@.dom().contains(c) ==> (#[trigger] self.chunks@[c]).wf(t)
                && !self.chunks@[c].spec_is_empty()
    }

    /// Which chunk coordinates are present.
    pub closed spec fn dom(self) -> Set<ChunkCoords> {
        self.chunks@.dom()
    }

    /// The blocks of the chunk at `c`; meaningful only when `c` is present.
    pub closed spec fn blocks_at(self, c: ChunkCoords) -> Seq<Block> {
        self.chunks@[c]@
    }

    /// The block at the world voxel `g`: air wherever the owning chunk is
    /// absent.
    pub open spec fn spec_block(self, g: GlobalCoords) -> Block {
        if self.dom().contains(spec_chunk_coords(g)) {
            self.blocks_at(spec_chunk_coords(g))[spec_local_coords(g).index()]
        } else {
            Block::Air
        }
    }

    /// A store with no chunks.
    pub fn new() -> (r: ChunkStore)
        ensures
            forall|t: BlockTable| r.wf(t),
            r.dom() =~= Set::empty(),
    {
        ChunkStore { chunks: CoordMap::new() }
    }

    pub fn contains(&self, c: ChunkCoords, t: &BlockTable) -> (r: bool)
        requires
            self.wf(*t),
        ensures
            r == self.dom().contains(c),
    {
        self.chunks.contains(c)
    }

    /// The chunk at `c`, if present.
    pub fn get(&self, c: ChunkCoords, t: &BlockTable) -> (r: Option<&Chunk>)
        requires
            self.wf(*t),
        ensures
            r matches Some(chunk) ==> self.dom().contains(c) && chunk.wf(*t)
                && chunk@ == self.blocks_at(c) && !chunk.spec_is_empty(),
            r is None ==> !self.dom().contains(c),
    {
        self.chunks.get(c)
    }

    /// Inserts a chunk at a previously absent coordinate; inserting an empty
    /// chunk, or over an occupied coordinate, is a programming error and is
    /// ruled out by the precondition.
    pub fn insert(&mut self, c: ChunkCoords, chunk: Chunk, t: &BlockTable)
        requires
            old(self).wf(*t),
            !old(self).dom().contains(c),
            chunk.wf(*t),
            !chunk.spec_is_empty(),
        ensures
            final(self).wf(*t),
            final(self).dom() =~= old(self).dom().insert(c),
            final(self).blocks_at(c) == chunk@,
            forall|q: ChunkCoords|
                q != c && old(self).dom().contains(q) ==> #[trigger] final(self).blocks_at(q)
                    == old(self).blocks_at(q),
    {
        let _ = self.chunks.insert(c, chunk);
    }

    /// Removes and returns the chunk at `c`, which must be present.
    pub fn remove(&mut self, c: ChunkCoords, t: &BlockTable) -> (r: Chunk)
        requires
            old(self).wf(*t),
            old(self).dom().contains(c),
        ensures
            final(self).wf(*t),
            final(self).dom() =~= old(self).dom().remove(c),
            r.wf(*t),
            r@ == old(self).blocks_at(c),
            forall|q: ChunkCoords|
                q != c && old(self).dom().contains(q) ==> #[trigger] final(self).blocks_at(q)
                    == old(self).blocks_at(q),
    {
        match self.chunks.remove(c) {
            Some(chunk) => chunk,
            None => unreached(),
        }
    }

    /// A stored chunk always holds a non-air voxel.
    pub proof fn lemma_stored_not_all_air(self, t: BlockTable, c: ChunkCoords)
        requires
            self.wf(t),
            self.dom().contains(c),
        ensures
            !crate::action::is_all_air(self.blocks_at(c)),
            self.blocks_at(c).len() == 4096,
    {
        self.chunks@[c].lemma_wf_len(t);
        crate::count::lemma_count_zero(
            self.chunks@[c]@,
            |b: Block| crate::chunk::is_non_air(b),
        );
        let i = choose|i: int|
            0 <= i < self.chunks@[c]@.len() && crate::chunk::is_non_air(
                #[trigger] self.chunks@[c]@[i],
            );
        assert(self.blocks_at(c)[i] != Block::Air);
    }

    /// The bit-packed opacity snapshot of the voxel neighbourhood around
    /// `g`, for meshing and visibility decisions: each cell is opaque exactly
    /// when the block standing there is, with unloaded neighbours counting
    /// as fully transparent and cells beyond the world edge left clear.
    pub fn block_area(&self, g: GlobalCoords, t: &BlockTable) -> (r: crate::mesh::BlockArea)
        requires
            self.wf(*t),
            t.wf(),
            g.wf(),
        ensures
            forall|o: crate::coords::Offset|
                o.within(1) && (#[trigger] g.spec_offset(o)).wf() ==> r.spec_is_opaque(o)
                    == t.spec_data(self.spec_block(g.spec_offset(o))).is_opaque,
    {
        let offsets = crate::coords::cube_offsets(1);
        let mut area = crate::mesh::BlockArea::new();
        let mut i: usize = 0;
        while i < offsets.len()
            invariant
                self.wf(*t),
                t.wf(),
                g.wf(),
                i <= offsets@.len(),
                forall|o: crate::coords::Offset| #[trigger]
                    offsets@.contains(o) <==> o.within(1),
                forall|a: int, b: int|
                    0 <= a < b < offsets@.len() ==> #[trigger] offsets@[a]
                        != #[trigger] offsets@[b],
                forall|o: crate::coords::Offset|
                    (exists|j: int| 0 <= j < i && #[trigger] offsets@[j] == o) && (
                    #[trigger] g.spec_offset(o)).wf() ==> area.spec_is_opaque(o) == t.spec_data(
                        self.spec_block(g.spec_offset(o)),
                    ).is_opaque,
            decreases offsets@.len() - i,
        {
            let o = offsets[i];
            proof {
                assert(offsets@.contains(offsets@[i as int]));
            }
            match g.offset(o) {
                Some(n) => {
                    let b = self.block(n, t);
                    area.set(o, t.data(b).is_opaque);
                    proof {
                        assert forall|q: crate::coords::Offset|
                            (exists|j: int| 0 <= j < i + 1 && #[trigger] offsets@[j] == q) && (
                            #[trigger] g.spec_offset(q)).wf() implies area.spec_is_opaque(q)
                            == t.spec_data(self.spec_block(g.spec_offset(q))).is_opaque by {
                            let j = choose|j: int| 0 <= j < i + 1 && #[trigger] offsets@[j] == q;
                            assert(offsets@.contains(offsets@[j]));
                            assert(q.within(1));
                            if q != o {
                                assert(j < i);
                                assert(area.spec_is_opaque(q) == t.spec_data(
                                    self.spec_block(g.spec_offset(q)),
                                ).is_opaque);
                            }
                        }
                    }
                }
                None => {
                    proof {
                        assert forall|q: crate::coords::Offset|
                            (exists|j: int| 0 <= j < i + 1 && #[trigger] offsets@[j] == q) && (
                            #[trigger] g.spec_offset(q)).wf() implies area.spec_is_opaque(q)
                            == t.spec_data(self.spec_block(g.spec_offset(q))).is_opaque by {
                            let j = choose|j: int| 0 <= j < i + 1 && #[trigger] offsets@[j] == q;
                            assert(offsets@.contains(offsets@[j]));
                            if q == o {
                                assert(!g.spec_offset(o).wf());
                            } else {
                                assert(j < i);
                            }
                        }
                    }
                }
            }
            i += 1;
        }
        proof {
            assert forall|o: crate::coords::Offset|
                o.within(1) && (#[trigger] g.spec_offset(o)).wf() implies area.spec_is_opaque(o)
                == t.spec_data(self.spec_block(g.spec_offset(o))).is_opaque by {
                assert(offsets@.contains(o));
                let j = choose|j: int| 0 <= j < offsets@.len() && offsets@[j] == o;
            }
        }
        area
    }

    /// The block at the world voxel `g`: the default (air) block wherever the
    /// owning chunk is absent.
    pub fn block(&self, g: GlobalCoords, t: &BlockTable) -> (r: Block)
        requires
            self.wf(*t),
            g.wf(),
        ensures
            r == self.spec_block(g),
    {
        proof {
            crate::coords::lemma_coords_round_trip(g);
        }
        match self.chunks.get(chunk_coords(g)) {
            Some(chunk) => chunk.block(local_coords(g), t),
            None => Block::Air,
        }
    }
}

} // verus!
