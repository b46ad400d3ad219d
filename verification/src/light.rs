//! Light propagation: per-chunk light grids and the relaxation engine that
//! recomputes a region's light after generation or edits. Propagation is a
//! monotone sweep from zero, so at every moment each recomputed voxel's light
//! is justified by its own emission or by a brighter neighbour less one —
//! light never exceeds its most-lit neighbour plus the source's emission.

use crate::block::{BlockTable, MAX_LIGHT};
use crate::coord_map::CoordMap;
use crate::coords::{
    chunk_coords, local_coords, spec_chunk_coords, spec_local_coords, ChunkCoords, GlobalCoords,
    LocalCoords, WORLD_EXTENT,
};
use crate::store::ChunkStore;
use vstd::pervasive::VecAdditionalExecFns;
use vstd::prelude::*;

verus! {

/// Edge length of the relight buffer: the region recomputed around a change
/// plus a one-voxel read-only shell.
pub const RELIGHT_DIM: usize = 33;

/// Voxels in the relight buffer.
pub const RELIGHT_VOLUME: usize = 35937;

/// Dense index of buffer cell `(x, y, z)`.
pub open spec fn spec_bidx(x: int, y: int, z: int) -> int {
    x * 1089 + y * 33 + z
}

/// Whether `(x, y, z)` lies in the buffer's interior — the voxels the sweep
/// recomputes; the outermost shell is read-only boundary light.
pub open spec fn spec_interior(x: int, y: int, z: int) -> bool {
    1 <= x < 32 && 1 <= y < 32 && 1 <= z < 32
}

/// The larger of two values.
pub open spec fn spec_max(a: int, b: int) -> int {
    if a >= b {
        a
    } else {
        b
    }
}

/// The brightest of the six face neighbours of an interior cell.
pub open spec fn spec_nbr_max(vals: Seq<u8>, x: int, y: int, z: int) -> int {
    spec_max(
        spec_max(
            spec_max(vals[spec_bidx(x - 1, y, z)] as int, vals[spec_bidx(x + 1, y, z)] as int),
            spec_max(vals[spec_bidx(x, y - 1, z)] as int, vals[spec_bidx(x, y + 1, z)] as int),
        ),
        spec_max(vals[spec_bidx(x, y, z - 1)] as int, vals[spec_bidx(x, y, z + 1)] as int),
    )
}

/// The light an interior cell may legitimately carry, given its neighbours:
/// its own emission, or a brighter transparent-path neighbour attenuated by
/// one. An opaque cell carries only its own emission.
pub open spec fn spec_cand(
    vals: Seq<u8>,
    emission: Seq<u8>,
    opaque: Seq<bool>,
    x: int,
    y: int,
    z: int,
) -> int {
    let i = spec_bidx(x, y, z);
    if opaque[i] {
        emission[i] as int
    } else {
        spec_max(
            emission[i] as int,
            if spec_nbr_max(vals, x, y, z) > 0 {
                spec_nbr_max(vals, x, y, z) - 1
            } else {
                0
            },
        )
    }
}

/// Every interior cell's light is justified by its emission or a brighter
/// neighbour less one.
pub open spec fn spec_justified(vals: Seq<u8>, emission: Seq<u8>, opaque: Seq<bool>) -> bool {
    forall|x: int, y: int, z: int|
        spec_interior(x, y, z) ==> vals[spec_bidx(x, y, z)] as int <= #[trigger] spec_cand(
            vals,
            emission,
            opaque,
            x,
            y,
            z,
        )
}

/// Shape of a relight buffer.
pub open spec fn spec_buffer_wf(vals: Seq<u8>, emission: Seq<u8>, opaque: Seq<bool>) -> bool {
    &&& vals.len() == RELIGHT_VOLUME
    &&& emission.len() == RELIGHT_VOLUME
    &&& opaque.len() == RELIGHT_VOLUME
    &&& forall|i: int| 0 <= i < RELIGHT_VOLUME ==> #[trigger] vals[i] <= MAX_LIGHT
    &&& forall|i: int| 0 <= i < RELIGHT_VOLUME ==> #[trigger] emission[i] <= MAX_LIGHT
}

/// Growing any cells can only raise a candidate.
proof fn lemma_cand_monotone(
    vals1: Seq<u8>,
    vals2: Seq<u8>,
    emission: Seq<u8>,
    opaque: Seq<bool>,
    x: int,
    y: int,
    z: int,
)
    requires
        vals1.len() == RELIGHT_VOLUME,
        vals2.len() == RELIGHT_VOLUME,
        spec_interior(x, y, z),
        forall|i: int| 0 <= i < RELIGHT_VOLUME ==> #[trigger] vals1[i] <= vals2[i],
    ensures
        spec_cand(vals1, emission, opaque, x, y, z) <= spec_cand(vals2, emission, opaque, x, y, z),
{
    assert(vals1[spec_bidx(x - 1, y, z)] <= vals2[spec_bidx(x - 1, y, z)]);
    assert(vals1[spec_bidx(x + 1, y, z)] <= vals2[spec_bidx(x + 1, y, z)]);
    assert(vals1[spec_bidx(x, y - 1, z)] <= vals2[spec_bidx(x, y - 1, z)]);
    assert(vals1[spec_bidx(x, y + 1, z)] <= vals2[spec_bidx(x, y + 1, z)]);
    assert(vals1[spec_bidx(x, y, z - 1)] <= vals2[spec_bidx(x, y, z - 1)]);
    assert(vals1[spec_bidx(x, y, z + 1)] <= vals2[spec_bidx(x, y, z + 1)]);
}

/// Raising one interior cell to its current candidate keeps every cell
/// justified.
proof fn lemma_relax_justified(
    before: Seq<u8>,
    after: Seq<u8>,
    emission: Seq<u8>,
    opaque: Seq<bool>,
    x: int,
    y: int,
    z: int,
)
    requires
        spec_buffer_wf(before, emission, opaque),
        spec_justified(before, emission, opaque),
        spec_interior(x, y, z),
        after == before.update(
            spec_bidx(x, y, z),
            (spec_cand(before, emission, opaque, x, y, z)) as u8,
        ),
        0 <= spec_cand(before, emission, opaque, x, y, z) <= MAX_LIGHT,
        before[spec_bidx(x, y, z)] as int <= spec_cand(before, emission, opaque, x, y, z),
    ensures
        spec_justified(after, emission, opaque),
{
    assert forall|i: int| 0 <= i < RELIGHT_VOLUME implies #[trigger] before[i] <= after[i] by {}
    assert forall|qx: int, qy: int, qz: int|
        spec_interior(qx, qy, qz) implies after[spec_bidx(qx, qy, qz)] as int <= #[trigger]
        spec_cand(after, emission, opaque, qx, qy, qz) by {
        lemma_cand_monotone(before, after, emission, opaque, qx, qy, qz);
        if spec_bidx(qx, qy, qz) == spec_bidx(x, y, z) {
            assert(qx == x && qy == y && qz == z);
            assert(spec_nbr_max(after, qx, qy, qz) == spec_nbr_max(before, qx, qy, qz));
            assert(spec_cand(after, emission, opaque, qx, qy, qz) == spec_cand(
                before,
                emission,
                opaque,
                qx,
                qy,
                qz,
            ));
        } else {
            assert(after[spec_bidx(qx, qy, qz)] == before[spec_bidx(qx, qy, qz)]);
        }
    }
}

/// Relaxes one interior cell: raises it to its current candidate, keeping
/// every cell justified and bounded.
#[verifier::rlimit(100)]
fn relax(
    vals: &mut Vec<u8>,
    emission: &Vec<u8>,
    opaque: &Vec<bool>,
    x: usize,
    y: usize,
    z: usize,
) -> (changed: bool)
    requires
        spec_buffer_wf(old(vals)@, emission@, opaque@),
        spec_justified(old(vals)@, emission@, opaque@),
        spec_interior(x as int, y as int, z as int),
    ensures
        spec_buffer_wf(final(vals)@, emission@, opaque@),
        spec_justified(final(vals)@, emission@, opaque@),
        forall|i: int| 0 <= i < RELIGHT_VOLUME ==> #[trigger] old(vals)@[i] <= final(vals)@[i],
        final(vals)@[spec_bidx(x as int, y as int, z as int)] >= emission@[spec_bidx(
            x as int,
            y as int,
            z as int,
        )],
        forall|i: int|
            0 <= i < RELIGHT_VOLUME && i != spec_bidx(x as int, y as int, z as int)
                ==> #[trigger] final(vals)@[i] == old(vals)@[i],
{
    let i: usize = x * 1089 + y * 33 + z;
    let n1 = vals[i - 1089];
    let n2 = vals[i + 1089];
    let n3 = vals[i - 33];
    let n4 = vals[i + 33];
    let n5 = vals[i - 1];
    let n6 = vals[i + 1];
    let mut m = n1;
    if n2 > m {
        m = n2;
    }
    if n3 > m {
        m = n3;
    }
    if n4 > m {
        m = n4;
    }
    if n5 > m {
        m = n5;
    }
    if n6 > m {
        m = n6;
    }
    proof {
        assert(m as int == spec_nbr_max(vals@, x as int, y as int, z as int));
    }
    let cand: u8 = if opaque[i] {
        emission[i]
    } else {
        let flow = if m > 0 {
            m - 1
        } else {
            0
        };
        if emission[i] >= flow {
            emission[i]
        } else {
            flow
        }
    };
    proof {
        assert(cand as int == spec_cand(
            vals@,
            emission@,
            opaque@,
            x as int,
            y as int,
            z as int,
        ));
    }
    let mut changed = false;
    if cand > vals[i] {
        changed = true;
        let ghost before = vals@;
        vals.set(i, cand);
        proof {
            lemma_relax_justified(
                before,
                vals@,
                emission@,
                opaque@,
                x as int,
                y as int,
                z as int,
            );
        }
    }
    changed
}

/// One full relaxation sweep over the interior: afterwards every interior
/// cell carries at least its own emission, and no cell got darker.
fn sweep(vals: &mut Vec<u8>, emission: &Vec<u8>, opaque: &Vec<bool>) -> (changed: bool)
    requires
        spec_buffer_wf(old(vals)@, emission@, opaque@),
        spec_justified(old(vals)@, emission@, opaque@),
    ensures
        spec_buffer_wf(final(vals)@, emission@, opaque@),
        spec_justified(final(vals)@, emission@, opaque@),
        forall|i: int| 0 <= i < RELIGHT_VOLUME ==> #[trigger] old(vals)@[i] <= final(vals)@[i],
        forall|qx: int, qy: int, qz: int|
            spec_interior(qx, qy, qz) ==> final(vals)@[spec_bidx(qx, qy, qz)] >= #[trigger]
                emission@[spec_bidx(qx, qy, qz)],
        forall|qx: int, qy: int, qz: int|
            0 <= qx < 33 && 0 <= qy < 33 && 0 <= qz < 33 && !spec_interior(qx, qy, qz)
                ==> #[trigger] final(vals)@[spec_bidx(qx, qy, qz)] == old(vals)@[spec_bidx(
                qx,
                qy,
                qz,
            )],
{
    let mut changed = false;
    let mut x: usize = 1;
    while x < 32
        invariant
            spec_buffer_wf(vals@, emission@, opaque@),
            spec_justified(vals@, emission@, opaque@),
            1 <= x <= 32,
            forall|i: int| 0 <= i < RELIGHT_VOLUME ==> #[trigger] old(vals)@[i] <= vals@[i],
            forall|qx: int, qy: int, qz: int|
                spec_interior(qx, qy, qz) && qx < x ==> vals@[spec_bidx(qx, qy, qz)] >= #[trigger]
                    emission@[spec_bidx(qx, qy, qz)],
            forall|qx: int, qy: int, qz: int|
                0 <= qx < 33 && 0 <= qy < 33 && 0 <= qz < 33 && !spec_interior(qx, qy, qz)
                    ==> #[trigger] vals@[spec_bidx(qx, qy, qz)] == old(vals)@[spec_bidx(
                    qx,
                    qy,
                    qz,
                )],
        decreases 32 - x,
    {
        let mut y: usize = 1;
        while y < 32
            invariant
                spec_buffer_wf(vals@, emission@, opaque@),
                spec_justified(vals@, emission@, opaque@),
                1 <= x < 32,
                1 <= y <= 32,
                forall|i: int| 0 <= i < RELIGHT_VOLUME ==> #[trigger] old(vals)@[i] <= vals@[i],
                forall|qx: int, qy: int, qz: int|
                    spec_interior(qx, qy, qz) && (qx < x || (qx == x && qy < y)) ==> vals@[
                        spec_bidx(qx, qy, qz)] >= #[trigger] emission@[spec_bidx(qx, qy, qz)],
                forall|qx: int, qy: int, qz: int|
                    0 <= qx < 33 && 0 <= qy < 33 && 0 <= qz < 33 && !spec_interior(qx, qy, qz)
                        ==> #[trigger] vals@[spec_bidx(qx, qy, qz)] == old(vals)@[spec_bidx(
                        qx,
                        qy,
                        qz,
                    )],
            decreases 32 - y,
        {
            let mut z: usize = 1;
            while z < 32
                invariant
                    spec_buffer_wf(vals@, emission@, opaque@),
                    spec_justified(vals@, emission@, opaque@),
                    1 <= x < 32,
                    1 <= y < 32,
                    1 <= z <= 32,
                    forall|i: int| 0 <= i < RELIGHT_VOLUME ==> #[trigger] old(vals)@[i] <= vals@[i],
                    forall|qx: int, qy: int, qz: int|
                        spec_interior(qx, qy, qz) && (qx < x || (qx == x && qy < y) || (qx == x
                            && qy == y && qz < z)) ==> vals@[spec_bidx(qx, qy, qz)] >= #[trigger]
                            emission@[spec_bidx(qx, qy, qz)],
                    forall|qx: int, qy: int, qz: int|
                        0 <= qx < 33 && 0 <= qy < 33 && 0 <= qz < 33 && !spec_interior(qx, qy, qz)
                            ==> #[trigger] vals@[spec_bidx(qx, qy, qz)] == old(vals)@[spec_bidx(
                            qx,
                            qy,
                            qz,
                        )],
                decreases 32 - z,
            {
                let ghost before = vals@;
                if relax(vals, emission, opaque, x, y, z) {
                    changed = true;
                }
                proof {
                    assert forall|qx: int, qy: int, qz: int|
                        spec_interior(qx, qy, qz) && (qx < x || (qx == x && qy < y) || (qx == x
                            && qy == y && qz < z + 1)) implies vals@[spec_bidx(qx, qy, qz)]
                        >= #[trigger] emission@[spec_bidx(qx, qy, qz)] by {
                        lemma_bidx_bounds(qx, qy, qz);
                        if !(qx == x && qy == y && qz == z) {
                            assert(before[spec_bidx(qx, qy, qz)] <= vals@[spec_bidx(qx, qy, qz)]);
                        }
                    }
                    assert forall|qx: int, qy: int, qz: int|
                        0 <= qx < 33 && 0 <= qy < 33 && 0 <= qz < 33 && !spec_interior(
                            qx,
                            qy,
                            qz,
                        ) implies #[trigger] vals@[spec_bidx(qx, qy, qz)] == old(vals)@[spec_bidx(
                        qx,
                        qy,
                        qz,
                    )] by {
                        lemma_bidx_bounds(qx, qy, qz);
                        if spec_bidx(qx, qy, qz) == spec_bidx(x as int, y as int, z as int) {
                            lemma_bidx_injective(qx, qy, qz, x as int, y as int, z as int);
                        } else {
                            assert(vals@[spec_bidx(qx, qy, qz)] == before[spec_bidx(qx, qy, qz)]);
                        }
                    }
                }
                z += 1;
            }
            y += 1;
        }
        x += 1;
    }
    changed
}

/// The world voxel of buffer cell `(x, y, z)` of the region at `lo`.
pub open spec fn spec_region_voxel(lo: GlobalCoords, x: int, y: int, z: int) -> GlobalCoords {
    GlobalCoords { x: (lo.x + x) as i64, y: (lo.y + y) as i64, z: (lo.z + z) as i64 }
}

/// Whether `g` lies in the recomputed interior of the region at `lo`.
pub open spec fn spec_in_region(lo: GlobalCoords, g: GlobalCoords) -> bool {
    &&& lo.x + 1 <= g.x <= lo.x + 31
    &&& lo.y + 1 <= g.y <= lo.y + 31
    &&& lo.z + 1 <= g.z <= lo.z + 31
}

/// The buffer cell index of the world voxel `g` within the region at `lo`.
pub open spec fn spec_cell_bidx(lo: GlobalCoords, g: GlobalCoords) -> int {
    spec_bidx(g.x - lo.x, g.y - lo.y, g.z - lo.z)
}

/// The brightest of the six face neighbours of `g`, read from the world's
/// light field.
pub open spec fn spec_world_nbr_max(light: WorldLight, g: GlobalCoords) -> int {
    spec_max(
        spec_max(
            spec_max(
                light.spec_light(GlobalCoords { x: (g.x - 1) as i64, ..g }) as int,
                light.spec_light(GlobalCoords { x: (g.x + 1) as i64, ..g }) as int,
            ),
            spec_max(
                light.spec_light(GlobalCoords { y: (g.y - 1) as i64, ..g }) as int,
                light.spec_light(GlobalCoords { y: (g.y + 1) as i64, ..g }) as int,
            ),
        ),
        spec_max(
            light.spec_light(GlobalCoords { z: (g.z - 1) as i64, ..g }) as int,
            light.spec_light(GlobalCoords { z: (g.z + 1) as i64, ..g }) as int,
        ),
    )
}

/// The propagation rule, read in the world: the light at `g` never exceeds
/// its block's emission, or — through a non-opaque block — its brightest
/// neighbour attenuated by one.
pub open spec fn spec_world_justified_at(
    light: WorldLight,
    store: ChunkStore,
    t: BlockTable,
    g: GlobalCoords,
) -> bool {
    light.spec_light(g) as int <= (if t.spec_data(store.spec_block(g)).is_opaque {
        t.spec_data(store.spec_block(g)).luminance as int
    } else {
        spec_max(
            t.spec_data(store.spec_block(g)).luminance as int,
            if spec_world_nbr_max(light, g) > 0 {
                spec_world_nbr_max(light, g) - 1
            } else {
                0
            },
        )
    })
}

/// Light never exceeds the most-lit neighbour plus the cell's own emission:
/// the bound every relit voxel satisfies after any number of sweeps.
pub proof fn lemma_light_bound(
    vals: Seq<u8>,
    emission: Seq<u8>,
    opaque: Seq<bool>,
    x: int,
    y: int,
    z: int,
)
    requires
        spec_buffer_wf(vals, emission, opaque),
        spec_justified(vals, emission, opaque),
        spec_interior(x, y, z),
    ensures
        0 <= vals[spec_bidx(x, y, z)] as int,
        vals[spec_bidx(x, y, z)] as int <= emission[spec_bidx(x, y, z)] + spec_nbr_max(
            vals,
            x,
            y,
            z,
        ),
        vals[spec_bidx(x, y, z)] <= MAX_LIGHT,
{
    assert(vals[spec_bidx(x, y, z)] as int <= spec_cand(vals, emission, opaque, x, y, z));
}

/// Whether a voxel carries any light.
pub open spec fn is_lit(v: u8) -> bool {
    v != 0
}

/// Light monotonicity, read in the world: a voxel's light is non-negative,
/// capped by the fixed maximum, and never exceeds its most-lit neighbour
/// plus its own block's emission.
pub proof fn lemma_world_light_bound(
    light: WorldLight,
    store: ChunkStore,
    t: BlockTable,
    g: GlobalCoords,
)
    requires
        light.wf(),
        spec_world_justified_at(light, store, t, g),
    ensures
        0 <= light.spec_light(g) <= MAX_LIGHT,
        light.spec_light(g) as int <= t.spec_data(store.spec_block(g)).luminance
            + spec_world_nbr_max(light, g),
{
    light.lemma_light_max(g);
    light.lemma_light_max(GlobalCoords { x: (g.x - 1) as i64, ..g });
    light.lemma_light_max(GlobalCoords { x: (g.x + 1) as i64, ..g });
}

/// One chunk's light grid: a compact light value per voxel, with a running
/// count of the lit voxels for a constant-time emptiness check.
pub struct ChunkLight {
    vals: Vec<u8>,
    non_zero_count: u16,
}

impl ChunkLight {
    pub closed spec fn wf(self) -> bool {
        &&& self.vals@.len() == 4096
        &&& forall|i: int| 0 <= i < 4096 ==> #[trigger] self.vals@[i] <= MAX_LIGHT
        &&& self.non_zero_count == crate::count::count_if(self.vals@, |v: u8| is_lit(v))
    }

    pub closed spec fn view(self) -> Seq<u8> {
        self.vals@
    }

    pub open spec fn spec_is_empty(self) -> bool {
        crate::count::count_if(self@, |v: u8| is_lit(v)) == 0
    }

    pub fn new() -> (r: ChunkLight)
        ensures
            r.wf(),
            forall|i: int| 0 <= i < 4096 ==> #[trigger] r@[i] == 0,
            r.spec_is_empty(),
    {
        let vals: Vec<u8> = vec![0u8; 4096];
        proof {
            crate::count::lemma_count_zero(vals@, |v: u8| is_lit(v));
        }
        ChunkLight { vals, non_zero_count: 0 }
    }

    /// Whether every voxel is dark; a true result means exactly that, by the
    /// running count.
    pub fn is_empty(&self) -> (r: bool)
        requires
            self.wf(),
        ensures
            r == self.spec_is_empty(),
            r <==> (forall|i: int| 0 <= i < self@.len() ==> #[trigger] self@[i] == 0),
    {
        proof {
            crate::count::lemma_count_zero(self.vals@, |v: u8| is_lit(v));
            if self.non_zero_count == 0 {
                assert forall|i: int| 0 <= i < self@.len() implies #[trigger] self@[i] == 0 by {
                    assert(!is_lit(self.vals@[i]));
                }
            } else {
                let i = choose|i: int|
                    0 <= i < self.vals@.len() && is_lit(#[trigger] self.vals@[i]);
                assert(self@[i] != 0);
            }
        }
        self.non_zero_count == 0
    }

    pub fn get(&self, l: LocalCoords) -> (r: u8)
        requires
            self.wf(),
            l.wf(),
        ensures
            r == self@[l.index()],
            r <= MAX_LIGHT,
    {
        self.vals[l.flat_index()]
    }

    /// Writes one voxel's light, keeping the lit count in step, and reports
    /// whether the value changed.
    pub fn set(&mut self, l: LocalCoords, v: u8) -> (changed: bool)
        requires
            old(self).wf(),
            l.wf(),
            v <= MAX_LIGHT,
        ensures
            final(self).wf(),
            final(self)@ == old(self)@.update(l.index(), v),
            changed == (old(self)@[l.index()] != v),
    {
        let i = l.flat_index();
        let prev = self.vals[i];
        if prev == v {
            proof {
                assert(self.vals@ =~= self.vals@.update(l.index(), v));
            }
            return false;
        }
        self.vals.set(i, v);
        proof {
            crate::count::lemma_count_update(old(self).vals@, |q: u8| is_lit(q), l.index(), v);
            crate::count::lemma_count_member(old(self).vals@, |q: u8| is_lit(q), l.index());
            crate::count::lemma_count_bounds(old(self).vals@, |q: u8| is_lit(q));
        }
        if prev != 0 {
            self.non_zero_count = self.non_zero_count - 1;
        }
        if v != 0 {
            self.non_zero_count = self.non_zero_count + 1;
        }
        true
    }
}

/// The world's light field: one light grid per lit chunk; an absent chunk is
/// dark.
pub struct WorldLight {
    grids: CoordMap<ChunkLight>,
}

impl WorldLight {
    pub closed spec fn wf(self) -> bool {
        &&& self.grids.wf()
        &&& forall|c: ChunkCoords|
            self.grids@.dom().contains(c) ==> (#[trigger] self.grids@[c]).wf()
    }

    /// The light at the world voxel `g`: zero where no grid exists.
    pub closed spec fn spec_light(self, g: GlobalCoords) -> u8 {
        if self.grids@.dom().contains(spec_chunk_coords(g)) {
            self.grids@[spec_chunk_coords(g)]@[spec_local_coords(g).index()]
        } else {
            0u8
        }
    }

    /// A dark world.
    pub fn new() -> (r: WorldLight)
        ensures
            r.wf(),
            forall|g: GlobalCoords| #[trigger] r.spec_light(g) == 0,
    {
        WorldLight { grids: CoordMap::new() }
    }

    /// Light never exceeds the fixed per-channel maximum.
    pub proof fn lemma_light_max(self, g: GlobalCoords)
        requires
            self.wf(),
        ensures
            self.spec_light(g) <= MAX_LIGHT,
    {
        crate::coords::lemma_local_axis_bounds(g.x as int);
        crate::coords::lemma_local_axis_bounds(g.y as int);
        crate::coords::lemma_local_axis_bounds(g.z as int);
    }

    pub fn light(&self, g: GlobalCoords) -> (r: u8)
        requires
            self.wf(),
            g.wf(),
        ensures
            r == self.spec_light(g),
            r <= MAX_LIGHT,
    {
        proof {
            self.lemma_light_max(g);
            crate::coords::lemma_coords_round_trip(g);
        }
        match self.grids.get(chunk_coords(g)) {
            Some(grid) => grid.get(local_coords(g)),
            None => 0,
        }
    }

    /// Writes one voxel's light.
    pub fn set(&mut self, g: GlobalCoords, v: u8)
        requires
            old(self).wf(),
            g.wf(),
            v <= MAX_LIGHT,
        ensures
            final(self).wf(),
            final(self).spec_light(g) == v,
            forall|q: GlobalCoords|
                q != g && q.wf() ==> #[trigger] final(self).spec_light(q) == old(self).spec_light(
                    q,
                ),
    {
        proof {
            crate::coords::lemma_coords_round_trip(g);
        }
        let c = chunk_coords(g);
        let l = local_coords(g);
        let mut grid = match self.grids.remove(c) {
            Some(grid) => grid,
            None => ChunkLight::new(),
        };
        let _ = grid.set(l, v);
        let _ = self.grids.insert(c, grid);
        proof {
            assert forall|q: GlobalCoords|
                q != g && q.wf() implies #[trigger] self.spec_light(q) == old(self).spec_light(
                q,
            ) by {
                crate::coords::lemma_coords_round_trip(q);
                if spec_chunk_coords(q) == c && spec_local_coords(q).index()
                    == spec_local_coords(g).index() {
                    LocalCoords::lemma_index_injective(spec_local_coords(q), spec_local_coords(g));
                }
            }
        }
    }

    /// Recomputes the light of the 31-voxel-wide region whose lowest corner
    /// is one voxel above `lo`, reading boundary light from the surrounding
    /// shell and opacity and emission from the store, and returns every voxel
    /// whose light changed. After the sweeps each recomputed voxel satisfies
    /// the propagation bound of [`lemma_light_bound`].
    pub fn relight_region(
        &mut self,
        store: &ChunkStore,
        t: &BlockTable,
        lo: GlobalCoords,
    ) -> (changed: Vec<GlobalCoords>)
        requires
            old(self).wf(),
            store.wf(*t),
            t.wf(),
            lo.wf(),
            lo.x + 33 < WORLD_EXTENT,
            lo.y + 33 < WORLD_EXTENT,
            lo.z + 33 < WORLD_EXTENT,
        ensures
            final(self).wf(),
            forall|i: int| 0 <= i < changed@.len() ==> (#[trigger] changed@[i]).wf(),
            forall|g: GlobalCoords|
                g.wf() && !spec_in_region(lo, g) ==> #[trigger] final(self).spec_light(g) == old(
                    self,
                ).spec_light(g),
            forall|g: GlobalCoords|
                #[trigger] changed@.contains(g) <==> (g.wf() && final(self).spec_light(g) != old(
                    self,
                ).spec_light(g)),
            forall|g: GlobalCoords|
                #[trigger] spec_in_region(lo, g) ==> final(self).spec_light(g) >= t.spec_data(
                    store.spec_block(g),
                ).luminance,
            forall|g: GlobalCoords|
                #[trigger] spec_in_region(lo, g) ==> spec_world_justified_at(
                    *final(self),
                    *store,
                    *t,
                    g,
                ),
    {
        let ghost pre = *old(self);
        let mut vals: Vec<u8> = vec![0u8; RELIGHT_VOLUME];
        let mut emission: Vec<u8> = vec![0u8; RELIGHT_VOLUME];
        let mut opaque: Vec<bool> = vec![false; RELIGHT_VOLUME];
        let mut k: usize = 0;
        while k < RELIGHT_VOLUME
            invariant
                self.wf(),
                *self == pre,
                store.wf(*t),
                t.wf(),
                lo.wf(),
                lo.x + 33 < WORLD_EXTENT,
                lo.y + 33 < WORLD_EXTENT,
                lo.z + 33 < WORLD_EXTENT,
                k <= RELIGHT_VOLUME,
                vals@.len() == RELIGHT_VOLUME,
                emission@.len() == RELIGHT_VOLUME,
                opaque@.len() == RELIGHT_VOLUME,
                forall|i: int| 0 <= i < RELIGHT_VOLUME ==> #[trigger] vals@[i] <= MAX_LIGHT,
                forall|i: int| 0 <= i < RELIGHT_VOLUME ==> #[trigger] emission@[i] <= MAX_LIGHT,
                forall|x: int, y: int, z: int|
                    spec_interior(x, y, z) ==> #[trigger] vals@[spec_bidx(x, y, z)] == 0,
                forall|x: int, y: int, z: int|
                    0 <= x < 33 && 0 <= y < 33 && 0 <= z < 33 && spec_bidx(x, y, z) < k
                        ==> #[trigger] emission@[spec_bidx(x, y, z)] == t.spec_data(
                        store.spec_block(spec_region_voxel(lo, x, y, z)),
                    ).luminance,
                forall|x: int, y: int, z: int|
                    0 <= x < 33 && 0 <= y < 33 && 0 <= z < 33 && spec_bidx(x, y, z) < k
                        ==> #[trigger] opaque@[spec_bidx(x, y, z)] == t.spec_data(
                        store.spec_block(spec_region_voxel(lo, x, y, z)),
                    ).is_opaque,
                forall|x: int, y: int, z: int|
                    0 <= x < 33 && 0 <= y < 33 && 0 <= z < 33 && spec_bidx(x, y, z) < k
                        && !spec_interior(x, y, z) ==> #[trigger] vals@[spec_bidx(x, y, z)]
                        == pre.spec_light(spec_region_voxel(lo, x, y, z)),
            decreases RELIGHT_VOLUME - k,
        {
            let (x, y, z) = buffer_coords(k);
            let g = GlobalCoords {
                x: lo.x + x as i64,
                y: lo.y + y as i64,
                z: lo.z + z as i64,
            };
            proof {
                assert(g == spec_region_voxel(lo, x as int, y as int, z as int));
            }
            let block = store.block(g, t);
            let data = t.data(block);
            let ghost emission_before = emission@;
            let ghost opaque_before = opaque@;
            emission.set(k, data.luminance);
            opaque.set(k, data.is_opaque);
            let interior = 1 <= x && x < 32 && 1 <= y && y < 32 && 1 <= z && z < 32;
            let ghost vals_before = vals@;
            if !interior {
                vals.set(k, self.light(g));
            }
            proof {
                assert forall|qx: int, qy: int, qz: int|
                    spec_interior(qx, qy, qz) implies #[trigger] vals@[spec_bidx(qx, qy, qz)]
                    == 0 by {
                    lemma_bidx_bounds(qx, qy, qz);
                    if spec_bidx(qx, qy, qz) == k {
                        lemma_bidx_injective(qx, qy, qz, x as int, y as int, z as int);
                    } else {
                        assert(vals@[spec_bidx(qx, qy, qz)] == vals_before[spec_bidx(qx, qy, qz)]);
                    }
                }
                assert forall|qx: int, qy: int, qz: int|
                    0 <= qx < 33 && 0 <= qy < 33 && 0 <= qz < 33 && spec_bidx(qx, qy, qz) < k + 1
                    implies #[trigger] emission@[spec_bidx(qx, qy, qz)] == t.spec_data(
                    store.spec_block(spec_region_voxel(lo, qx, qy, qz)),
                ).luminance by {
                    lemma_bidx_bounds(qx, qy, qz);
                    if spec_bidx(qx, qy, qz) == k {
                        lemma_bidx_injective(qx, qy, qz, x as int, y as int, z as int);
                    } else {
                        assert(emission@[spec_bidx(qx, qy, qz)] == emission_before[spec_bidx(
                            qx,
                            qy,
                            qz,
                        )]);
                    }
                }
                assert forall|qx: int, qy: int, qz: int|
                    0 <= qx < 33 && 0 <= qy < 33 && 0 <= qz < 33 && spec_bidx(qx, qy, qz) < k + 1
                    implies #[trigger] opaque@[spec_bidx(qx, qy, qz)] == t.spec_data(
                    store.spec_block(spec_region_voxel(lo, qx, qy, qz)),
                ).is_opaque by {
                    lemma_bidx_bounds(qx, qy, qz);
                    if spec_bidx(qx, qy, qz) == k {
                        lemma_bidx_injective(qx, qy, qz, x as int, y as int, z as int);
                    } else {
                        assert(opaque@[spec_bidx(qx, qy, qz)] == opaque_before[spec_bidx(
                            qx,
                            qy,
                            qz,
                        )]);
                    }
                }
                assert forall|qx: int, qy: int, qz: int|
                    0 <= qx < 33 && 0 <= qy < 33 && 0 <= qz < 33 && spec_bidx(qx, qy, qz) < k + 1
                        && !spec_interior(qx, qy, qz) implies #[trigger] vals@[spec_bidx(
                    qx,
                    qy,
                    qz,
                )] == pre.spec_light(spec_region_voxel(lo, qx, qy, qz)) by {
                    lemma_bidx_bounds(qx, qy, qz);
                    if spec_bidx(qx, qy, qz) == k {
                        lemma_bidx_injective(qx, qy, qz, x as int, y as int, z as int);
                    } else {
                        assert(vals@[spec_bidx(qx, qy, qz)] == vals_before[spec_bidx(qx, qy, qz)]);
                    }
                }
            }
            k += 1;
        }
        proof {
            assert forall|x: int, y: int, z: int|
                spec_interior(x, y, z) implies vals@[spec_bidx(x, y, z)] as int <= #[trigger]
                spec_cand(vals@, emission@, opaque@, x, y, z) by {
                lemma_bidx_bounds(x, y, z);
            }
        }
        let ghost shell = vals@;
        let mut go = sweep(&mut vals, &emission, &opaque);
        let mut round: usize = 1;
        while round < 24 && go
            invariant
                spec_buffer_wf(vals@, emission@, opaque@),
                spec_justified(vals@, emission@, opaque@),
                forall|qx: int, qy: int, qz: int|
                    spec_interior(qx, qy, qz) ==> vals@[spec_bidx(qx, qy, qz)] >= #[trigger]
                        emission@[spec_bidx(qx, qy, qz)],
                forall|qx: int, qy: int, qz: int|
                    0 <= qx < 33 && 0 <= qy < 33 && 0 <= qz < 33 && !spec_interior(qx, qy, qz)
                        ==> #[trigger] vals@[spec_bidx(qx, qy, qz)] == shell[spec_bidx(
                        qx,
                        qy,
                        qz,
                    )],
            decreases 24 - round,
        {
            let ghost before = vals@;
            go = sweep(&mut vals, &emission, &opaque);
            proof {
                assert forall|qx: int, qy: int, qz: int|
                    spec_interior(qx, qy, qz) implies vals@[spec_bidx(qx, qy, qz)] >= #[trigger]
                    emission@[spec_bidx(qx, qy, qz)] by {
                    lemma_bidx_bounds(qx, qy, qz);
                    assert(before[spec_bidx(qx, qy, qz)] <= vals@[spec_bidx(qx, qy, qz)]);
                }
            }
            round += 1;
        }
        proof {
            // the shell was never relaxed: its cells keep the boundary light
            assert forall|qx: int, qy: int, qz: int|
                0 <= qx < 33 && 0 <= qy < 33 && 0 <= qz < 33 && !spec_interior(qx, qy, qz)
                implies #[trigger] vals@[spec_bidx(qx, qy, qz)] == pre.spec_light(
                spec_region_voxel(lo, qx, qy, qz),
            ) by {
                lemma_bidx_bounds(qx, qy, qz);
                assert(vals@[spec_bidx(qx, qy, qz)] == shell[spec_bidx(qx, qy, qz)]);
            }
        }
        let mut changed: Vec<GlobalCoords> = Vec::new();
        let mut k2: usize = 0;
        while k2 < RELIGHT_VOLUME
            invariant
                self.wf(),
                store.wf(*t),
                t.wf(),
                lo.wf(),
                lo.x + 33 < WORLD_EXTENT,
                lo.y + 33 < WORLD_EXTENT,
                lo.z + 33 < WORLD_EXTENT,
                k2 <= RELIGHT_VOLUME,
                spec_buffer_wf(vals@, emission@, opaque@),
                spec_justified(vals@, emission@, opaque@),
                forall|x: int, y: int, z: int|
                    spec_interior(x, y, z) ==> vals@[spec_bidx(x, y, z)] >= #[trigger] emission@[
                        spec_bidx(x, y, z)],
                forall|x: int, y: int, z: int|
                    0 <= x < 33 && 0 <= y < 33 && 0 <= z < 33 ==> #[trigger] emission@[spec_bidx(
                        x,
                        y,
                        z,
                    )] == t.spec_data(store.spec_block(spec_region_voxel(lo, x, y, z))).luminance,
                forall|x: int, y: int, z: int|
                    0 <= x < 33 && 0 <= y < 33 && 0 <= z < 33 ==> #[trigger] opaque@[spec_bidx(
                        x,
                        y,
                        z,
                    )] == t.spec_data(store.spec_block(spec_region_voxel(lo, x, y, z))).is_opaque,
                forall|x: int, y: int, z: int|
                    0 <= x < 33 && 0 <= y < 33 && 0 <= z < 33 && !spec_interior(x, y, z)
                        ==> #[trigger] vals@[spec_bidx(x, y, z)] == pre.spec_light(
                        spec_region_voxel(lo, x, y, z),
                    ),
                forall|x: int, y: int, z: int|
                    spec_interior(x, y, z) && spec_bidx(x, y, z) < k2 ==> self.spec_light(
                        spec_region_voxel(lo, x, y, z),
                    ) == #[trigger] vals@[spec_bidx(x, y, z)],
                forall|g: GlobalCoords|
                    g.wf() && !(spec_in_region(lo, g) && spec_cell_bidx(lo, g) < k2)
                        ==> #[trigger] self.spec_light(g) == pre.spec_light(g),
                forall|g: GlobalCoords|
                    #[trigger] changed@.contains(g) <==> (g.wf() && spec_in_region(lo, g)
                        && spec_cell_bidx(lo, g) < k2 && vals@[spec_cell_bidx(lo, g)]
                        != pre.spec_light(g)),
            decreases RELIGHT_VOLUME - k2,
        {
            let (x, y, z) = buffer_coords(k2);
            if 1 <= x && x < 32 && 1 <= y && y < 32 && 1 <= z && z < 32 {
                let g = GlobalCoords {
                    x: lo.x + x as i64,
                    y: lo.y + y as i64,
                    z: lo.z + z as i64,
                };
                proof {
                    assert(g == spec_region_voxel(lo, x as int, y as int, z as int));
                    assert(g.wf());
                    assert(spec_in_region(lo, g));
                    assert(spec_cell_bidx(lo, g) == k2);
                }
                let v = vals[k2];
                let ghost changed_before = changed@;
                let ghost light_before = *self;
                if self.light(g) != v {
                    self.set(g, v);
                    changed.push(g);
                }
                proof {
                    assert forall|qx: int, qy: int, qz: int|
                        spec_interior(qx, qy, qz) && spec_bidx(qx, qy, qz) < k2 + 1 implies
                        self.spec_light(spec_region_voxel(lo, qx, qy, qz)) == #[trigger] vals@[
                        spec_bidx(qx, qy, qz)] by {
                        lemma_bidx_bounds(qx, qy, qz);
                        let q = spec_region_voxel(lo, qx, qy, qz);
                        if spec_bidx(qx, qy, qz) == k2 {
                            lemma_bidx_injective(qx, qy, qz, x as int, y as int, z as int);
                        } else {
                            assert(q.wf());
                            if q != g {
                                assert(self.spec_light(q) == light_before.spec_light(q));
                            } else {
                                assert(qx == x && qy == y && qz == z);
                            }
                        }
                    }
                    assert forall|q: GlobalCoords|
                        q.wf() && !(spec_in_region(lo, q) && spec_cell_bidx(lo, q) < k2 + 1)
                        implies #[trigger] self.spec_light(q) == pre.spec_light(q) by {
                        if q != g {
                            assert(self.spec_light(q) == light_before.spec_light(q));
                        } else {
                            assert(spec_cell_bidx(lo, g) == k2);
                        }
                    }
                    assert forall|q: GlobalCoords|
                        #[trigger] changed@.contains(q) <==> (q.wf() && spec_in_region(lo, q)
                            && spec_cell_bidx(lo, q) < k2 + 1 && vals@[spec_cell_bidx(lo, q)]
                            != pre.spec_light(q)) by {
                        if changed@ != changed_before {
                            vstd::seq_lib::lemma_seq_contains_after_push(changed_before, g, q);
                        }
                        if q.wf() && spec_in_region(lo, q) && spec_cell_bidx(lo, q) < k2 + 1 {
                            if spec_cell_bidx(lo, q) == k2 {
                                lemma_bidx_injective(
                                    q.x - lo.x,
                                    q.y - lo.y,
                                    q.z - lo.z,
                                    x as int,
                                    y as int,
                                    z as int,
                                );
                                assert(q == g);
                            }
                        }
                    }
                }
            } else {
                proof {
                    assert forall|qx: int, qy: int, qz: int|
                        spec_interior(qx, qy, qz) && spec_bidx(qx, qy, qz) < k2 + 1 implies
                        self.spec_light(spec_region_voxel(lo, qx, qy, qz)) == #[trigger] vals@[
                        spec_bidx(qx, qy, qz)] by {
                        lemma_bidx_bounds(qx, qy, qz);
                        if spec_bidx(qx, qy, qz) == k2 {
                            lemma_bidx_injective(qx, qy, qz, x as int, y as int, z as int);
                        }
                    }
                    assert forall|q: GlobalCoords|
                        #[trigger] changed@.contains(q) <==> (q.wf() && spec_in_region(lo, q)
                            && spec_cell_bidx(lo, q) < k2 + 1 && vals@[spec_cell_bidx(lo, q)]
                            != pre.spec_light(q)) by {
                        if q.wf() && spec_in_region(lo, q) && spec_cell_bidx(lo, q) == k2 {
                            lemma_bidx_injective(
                                q.x - lo.x,
                                q.y - lo.y,
                                q.z - lo.z,
                                x as int,
                                y as int,
                                z as int,
                            );
                        }
                    }
                }
            }
            k2 += 1;
        }
        proof {
            lemma_region_post(*self, pre, *store, *t, lo, vals@, emission@, opaque@, changed@);
        }
        changed
    }
}

/// From the writeback's end state — interior voxels carry the buffer, the
/// rest keeps the old light — the region's contract follows: exact change
/// reporting, the frame, seeding, and the propagation bound.
proof fn lemma_region_post(
    light: WorldLight,
    pre: WorldLight,
    store: ChunkStore,
    t: BlockTable,
    lo: GlobalCoords,
    vals: Seq<u8>,
    emission: Seq<u8>,
    opaque: Seq<bool>,
    changed: Seq<GlobalCoords>,
)
    requires
        lo.wf(),
        lo.x + 33 < WORLD_EXTENT,
        lo.y + 33 < WORLD_EXTENT,
        lo.z + 33 < WORLD_EXTENT,
        spec_buffer_wf(vals, emission, opaque),
        spec_justified(vals, emission, opaque),
        forall|x: int, y: int, z: int|
            spec_interior(x, y, z) ==> vals[spec_bidx(x, y, z)] >= #[trigger] emission[spec_bidx(
                x,
                y,
                z,
            )],
        forall|x: int, y: int, z: int|
            0 <= x < 33 && 0 <= y < 33 && 0 <= z < 33 ==> #[trigger] emission[spec_bidx(x, y, z)]
                == t.spec_data(store.spec_block(spec_region_voxel(lo, x, y, z))).luminance,
        forall|x: int, y: int, z: int|
            0 <= x < 33 && 0 <= y < 33 && 0 <= z < 33 ==> #[trigger] opaque[spec_bidx(x, y, z)]
                == t.spec_data(store.spec_block(spec_region_voxel(lo, x, y, z))).is_opaque,
        forall|x: int, y: int, z: int|
            0 <= x < 33 && 0 <= y < 33 && 0 <= z < 33 && !spec_interior(x, y, z) ==> #[trigger]
                vals[spec_bidx(x, y, z)] == pre.spec_light(spec_region_voxel(lo, x, y, z)),
        forall|x: int, y: int, z: int|
            spec_interior(x, y, z) ==> light.spec_light(spec_region_voxel(lo, x, y, z))
                == #[trigger] vals[spec_bidx(x, y, z)],
        forall|g: GlobalCoords|
            g.wf() && !spec_in_region(lo, g) ==> #[trigger] light.spec_light(g) == pre.spec_light(
                g,
            ),
        forall|g: GlobalCoords|
            #[trigger] changed.contains(g) <==> (g.wf() && spec_in_region(lo, g) && vals[
                spec_cell_bidx(lo, g)] != pre.spec_light(g)),
    ensures
        forall|i: int| 0 <= i < changed.len() ==> (#[trigger] changed[i]).wf(),
        forall|g: GlobalCoords|
            #[trigger] changed.contains(g) <==> (g.wf() && light.spec_light(g) != pre.spec_light(
                g,
            )),
        forall|g: GlobalCoords|
            #[trigger] spec_in_region(lo, g) ==> light.spec_light(g) >= t.spec_data(
                store.spec_block(g),
            ).luminance,
        forall|g: GlobalCoords|
            #[trigger] spec_in_region(lo, g) ==> spec_world_justified_at(light, store, t, g),
{
    assert forall|g: GlobalCoords| #[trigger] spec_in_region(lo, g) implies g.wf()
        && light.spec_light(g) == vals[spec_cell_bidx(lo, g)] && g == spec_region_voxel(
        lo,
        g.x - lo.x,
        g.y - lo.y,
        g.z - lo.z,
    ) by {
        assert(spec_interior(g.x - lo.x, g.y - lo.y, g.z - lo.z));
        assert(light.spec_light(spec_region_voxel(lo, g.x - lo.x, g.y - lo.y, g.z - lo.z))
            == vals[spec_bidx(g.x - lo.x, g.y - lo.y, g.z - lo.z)]);
    }
    assert forall|g: GlobalCoords|
        #[trigger] changed.contains(g) <==> (g.wf() && light.spec_light(g) != pre.spec_light(
        g,
    )) by {
        if !spec_in_region(lo, g) && g.wf() {
            assert(light.spec_light(g) == pre.spec_light(g));
        }
    }
    assert forall|i: int| 0 <= i < changed.len() implies (#[trigger] changed[i]).wf() by {
        assert(changed.contains(changed[i]));
    }
    assert forall|g: GlobalCoords| #[trigger] spec_in_region(lo, g) implies light.spec_light(g)
        >= t.spec_data(store.spec_block(g)).luminance && spec_world_justified_at(
        light,
        store,
        t,
        g,
    ) by {
        let x = g.x - lo.x;
        let y = g.y - lo.y;
        let z = g.z - lo.z;
        lemma_bidx_bounds(x, y, z);
        assert(emission[spec_bidx(x, y, z)] == t.spec_data(store.spec_block(g)).luminance);
        assert(opaque[spec_bidx(x, y, z)] == t.spec_data(store.spec_block(g)).is_opaque);
        lemma_neighbour_match(light, pre, lo, vals, g, x - 1, y, z);
        lemma_neighbour_match(light, pre, lo, vals, g, x + 1, y, z);
        lemma_neighbour_match(light, pre, lo, vals, g, x, y - 1, z);
        lemma_neighbour_match(light, pre, lo, vals, g, x, y + 1, z);
        lemma_neighbour_match(light, pre, lo, vals, g, x, y, z - 1);
        lemma_neighbour_match(light, pre, lo, vals, g, x, y, z + 1);
        assert(spec_world_nbr_max(light, g) == spec_nbr_max(vals, x, y, z));
        assert(vals[spec_bidx(x, y, z)] as int <= spec_cand(vals, emission, opaque, x, y, z));
    }
}

/// A region voxel's buffer neighbour carries the same light the world shows
/// at that neighbour.
proof fn lemma_neighbour_match(
    light: WorldLight,
    pre: WorldLight,
    lo: GlobalCoords,
    vals: Seq<u8>,
    g: GlobalCoords,
    nx: int,
    ny: int,
    nz: int,
)
    requires
        lo.wf(),
        lo.x + 33 < WORLD_EXTENT,
        lo.y + 33 < WORLD_EXTENT,
        lo.z + 33 < WORLD_EXTENT,
        spec_in_region(lo, g),
        0 <= nx < 33,
        0 <= ny < 33,
        0 <= nz < 33,
        vals.len() == RELIGHT_VOLUME,
        forall|x: int, y: int, z: int|
            0 <= x < 33 && 0 <= y < 33 && 0 <= z < 33 && !spec_interior(x, y, z) ==> #[trigger]
                vals[spec_bidx(x, y, z)] == pre.spec_light(spec_region_voxel(lo, x, y, z)),
        forall|x: int, y: int, z: int|
            spec_interior(x, y, z) ==> light.spec_light(spec_region_voxel(lo, x, y, z))
                == #[trigger] vals[spec_bidx(x, y, z)],
        forall|q: GlobalCoords|
            q.wf() && !spec_in_region(lo, q) ==> #[trigger] light.spec_light(q) == pre.spec_light(
                q,
            ),
    ensures
        light.spec_light(spec_region_voxel(lo, nx, ny, nz)) == vals[spec_bidx(nx, ny, nz)],
{
    let n = spec_region_voxel(lo, nx, ny, nz);
    if spec_interior(nx, ny, nz) {
        assert(light.spec_light(n) == vals[spec_bidx(nx, ny, nz)]);
    } else {
        assert(n.wf());
        assert(!spec_in_region(lo, n));
        assert(light.spec_light(n) == pre.spec_light(n));
        assert(vals[spec_bidx(nx, ny, nz)] == pre.spec_light(n));
    }
}

/// Distinct buffer cells have distinct dense indices.
proof fn lemma_bidx_injective(ax: int, ay: int, az: int, bx: int, by_: int, bz: int)
    requires
        0 <= ax < 33,
        0 <= ay < 33,
        0 <= az < 33,
        0 <= bx < 33,
        0 <= by_ < 33,
        0 <= bz < 33,
        spec_bidx(ax, ay, az) == spec_bidx(bx, by_, bz),
    ensures
        ax == bx && ay == by_ && az == bz,
{
}

/// A buffer cell's dense index is in range.
proof fn lemma_bidx_bounds(x: int, y: int, z: int)
    requires
        0 <= x < 33,
        0 <= y < 33,
        0 <= z < 33,
    ensures
        0 <= spec_bidx(x, y, z) < RELIGHT_VOLUME,
{
}

/// The buffer cell of a dense index.
fn buffer_coords(k: usize) -> (r: (usize, usize, usize))
    requires
        k < RELIGHT_VOLUME,
    ensures
        r.0 < 33 && r.1 < 33 && r.2 < 33,
        spec_bidx(r.0 as int, r.1 as int, r.2 as int) == k,
{
    let x = k / 1089;
    let rem = k % 1089;
    let y = rem / 33;
    let z = rem % 33;
    proof {
        vstd::arithmetic::div_mod::lemma_fundamental_div_mod(k as int, 1089);
        vstd::arithmetic::div_mod::lemma_mod_bound(k as int, 1089);
        vstd::arithmetic::div_mod::lemma_fundamental_div_mod(rem as int, 33);
        vstd::arithmetic::div_mod::lemma_mod_bound(rem as int, 33);
    }
    (x, y, z)
}

} // verus!
