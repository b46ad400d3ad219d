//! A viewer's visible window into the chunk grid: a cubic area around the
//! viewer's chunk, recreated whenever the viewer moves, plus the per-player
//! state the world consults when handling intents.

use crate::coords::{cube_offsets, ChunkCoords, Offset};
use crate::world::BlockIntersection;
use vstd::prelude::*;

verus! {

/// Largest area radius a viewer may ask for, in chunks.
pub const MAX_AREA_RADIUS: i8 = 32;

/// A viewer's visible window: every chunk within `radius` of `center` along
/// each axis.
#[derive(Clone, Copy, PartialEq, Eq, Structural, Debug)]
pub struct WorldArea {
    pub center: ChunkCoords,
    pub radius: i8,
}

impl WorldArea {
    pub open spec fn wf(self) -> bool {
        0 <= self.radius <= MAX_AREA_RADIUS
    }

    /// Whether the chunk at `c` is inside this area.
    pub open spec fn spec_contains(self, c: ChunkCoords) -> bool {
        &&& -self.radius <= c.x - self.center.x <= self.radius
        &&& -self.radius <= c.y - self.center.y <= self.radius
        &&& -self.radius <= c.z - self.center.z <= self.radius
    }

    pub fn new(center: ChunkCoords, radius: i8) -> (r: WorldArea)
        requires
            0 <= radius <= MAX_AREA_RADIUS,
        ensures
            r == (WorldArea { center, radius }),
            r.wf(),
    {
        WorldArea { center, radius }
    }

    pub fn contains(&self, c: ChunkCoords) -> (r: bool)
        ensures
            r == self.spec_contains(c),
    {
        let dx = c.x as i64 - self.center.x as i64;
        let dy = c.y as i64 - self.center.y as i64;
        let dz = c.z as i64 - self.center.z as i64;
        let r64 = self.radius as i64;
        -r64 <= dx && dx <= r64 && -r64 <= dy && dy <= r64 && -r64 <= dz && dz <= r64
    }

    /// Every chunk coordinate inside the area, each exactly once.
    pub fn points(&self) -> (r: Vec<ChunkCoords>)
        requires
            self.wf(),
        ensures
            forall|c: ChunkCoords| #[trigger] r@.contains(c) <==> self.spec_contains(c),
            forall|a: int, b: int| 0 <= a < b < r@.len() ==> #[trigger] r@[a] != #[trigger] r@[b],
    {
        let offsets = cube_offsets(self.radius);
        let mut r: Vec<ChunkCoords> = Vec::new();
        let mut i: usize = 0;
        while i < offsets.len()
            invariant
                self.wf(),
                i <= offsets@.len(),
                forall|o: Offset| #[trigger] offsets@.contains(o) <==> o.within(self.radius as int),
                forall|a: int, b: int|
                    0 <= a < b < offsets@.len() ==> #[trigger] offsets@[a] != #[trigger] offsets@[b],
                forall|c: ChunkCoords| #[trigger]
                    r@.contains(c) <==> self.spec_contains(c) && (exists|j: int|
                        0 <= j < i && self.center.spec_offset(#[trigger] offsets@[j]) == c
                            && self.center.x + offsets@[j].x == c.x && self.center.y + offsets@[j].y
                            == c.y && self.center.z + offsets@[j].z == c.z),
                forall|a: int, b: int| 0 <= a < b < r@.len() ==> #[trigger] r@[a] != #[trigger] r@[b],
            decreases offsets@.len() - i,
        {
            let o = offsets[i];
            let ghost r_before = r@;
            match self.center.offset(o) {
                Some(c) => {
                    proof {
                        assert(!r_before.contains(c)) by {
                            if r_before.contains(c) {
                                let j = choose|j: int|
                                    0 <= j < i && self.center.spec_offset(#[trigger] offsets@[j])
                                        == c && self.center.x + offsets@[j].x == c.x && self.center.y
                                        + offsets@[j].y == c.y && self.center.z + offsets@[j].z
                                        == c.z;
                                assert(offsets@[j] == o);
                            }
                        }
                    }
                    r.push(c);
                    proof {
                        assert(offsets@.contains(o)) by {
                            assert(offsets@[i as int] == o);
                        }
                        assert(self.spec_contains(c));
                        assert forall|q: ChunkCoords| #[trigger]
                            r@.contains(q) <==> self.spec_contains(q) && (exists|j: int|
                                0 <= j < i + 1 && self.center.spec_offset(#[trigger] offsets@[j])
                                    == q && self.center.x + offsets@[j].x == q.x && self.center.y
                                    + offsets@[j].y == q.y && self.center.z + offsets@[j].z
                                    == q.z) by {
                            vstd::seq_lib::lemma_seq_contains_after_push(r_before, c, q);
                            if q == c {
                                assert(self.center.spec_offset(offsets@[i as int]) == q
                                    && self.center.x + offsets@[i as int].x == q.x && self.center.y
                                    + offsets@[i as int].y == q.y && self.center.z + offsets@[
                                    i as int].z == q.z);
                            }
                        }
                        assert forall|a: int, b: int|
                            0 <= a < b < r@.len() implies #[trigger] r@[a] != #[trigger] r@[b] by {
                            if b == r@.len() - 1 {
                                assert(r_before.contains(r_before[a]));
                            }
                        }
                    }
                }
                None => {
                    proof {
                        assert forall|q: ChunkCoords| #[trigger]
                            r@.contains(q) <==> self.spec_contains(q) && (exists|j: int|
                                0 <= j < i + 1 && self.center.spec_offset(#[trigger] offsets@[j])
                                    == q && self.center.x + offsets@[j].x == q.x && self.center.y
                                    + offsets@[j].y == q.y && self.center.z + offsets@[j].z
                                    == q.z) by {
                        }
                    }
                }
            }
            i += 1;
        }
        proof {
            assert forall|c: ChunkCoords| self.spec_contains(c) implies r@.contains(c) by {
                let o = Offset {
                    x: (c.x - self.center.x) as i8,
                    y: (c.y - self.center.y) as i8,
                    z: (c.z - self.center.z) as i8,
                };
                assert(o.within(self.radius as int));
                assert(offsets@.contains(o));
                let j = choose|j: int| 0 <= j < offsets@.len() && offsets@[j] == o;
                assert(self.center.spec_offset(offsets@[j]) == c && self.center.x + offsets@[j].x
                    == c.x && self.center.y + offsets@[j].y == c.y && self.center.z + offsets@[j].z
                    == c.z);
            }
        }
        r
    }
}

/// The per-player state the world reads when it handles an intent: the
/// previous and current visible area, and the ordered voxels under the
/// player's crosshair within reach.
#[derive(Clone, Debug)]
pub struct Player {
    pub prev: WorldArea,
    pub curr: WorldArea,
    pub look: Vec<BlockIntersection>,
}

} // verus!
