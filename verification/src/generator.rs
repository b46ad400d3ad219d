//! The terrain generator consumed by world generation. Terrain generation is
//! a pluggable collaborator; this one is the simplest deterministic terrain —
//! solid sand below world height zero — which is all the core needs: the
//! world's contracts depend only on the generator being a pure function of
//! the chunk coordinates.

use crate::block::{Block, BlockTable};
use crate::chunk::{Chunk, CHUNK_VOLUME};
use crate::coords::ChunkCoords;
use vstd::prelude::*;

verus! {

/// A deterministic terrain generator: chunks below height zero are solid
/// sand, chunks at or above it are empty.
pub struct ChunkGenerator {}

impl ChunkGenerator {
    /// What the generator produces for the chunk at `c`, as a pure function
    /// of the coordinates.
    pub open spec fn spec_generate(self, c: ChunkCoords) -> Seq<Block> {
        Seq::new(
            CHUNK_VOLUME as nat,
            |i: int|
                if c.y < 0 {
                    Block::Sand
                } else {
                    Block::Air
                },
        )
    }

    pub fn new() -> (r: ChunkGenerator) {
        ChunkGenerator {  }
    }

    /// Generates the chunk at `c`; equal calls give equal chunks.
    pub fn generate(&self, c: ChunkCoords, t: &BlockTable) -> (r: Chunk)
        requires
            t.wf(),
        ensures
            r.wf(*t),
            r@ =~= self.spec_generate(c),
    {
        if c.y < 0 {
            Chunk::filled(Block::Sand, t)
        } else {
            Chunk::new(t)
        }
    }
}

} // verus!
