//! Coordinate systems of the voxel grid: world-absolute voxel coordinates,
//! chunk coordinates, and voxel coordinates local to one chunk, with the
//! conversions between them and proofs that the decomposition is exact.

use vstd::arithmetic::div_mod::{lemma_fundamental_div_mod, lemma_fundamental_div_mod_converse};
use vstd::prelude::*;

verus! {

/// Edge length of a cubic chunk, in voxels.
pub const CHUNK_DIM: u8 = 16;

/// Half-width of the addressable world along each axis, in voxels: every
/// chunk coordinate fits an `i32`, so a world voxel coordinate spans
/// `[-2^35, 2^35)`.
pub const WORLD_EXTENT: i64 = 34359738368;

/// Coordinates of one chunk in the sparse chunk grid.
#[derive(Clone, Copy, PartialEq, Eq, Structural, Debug)]
pub struct ChunkCoords {
    pub x: i32,
    pub y: i32,
    pub z: i32,
}

/// Coordinates of one voxel inside its chunk; each axis lies below
/// [`CHUNK_DIM`].
#[derive(Clone, Copy, PartialEq, Eq, Structural, Debug)]
pub struct LocalCoords {
    pub x: u8,
    pub y: u8,
    pub z: u8,
}

/// World-absolute coordinates of one voxel.
#[derive(Clone, Copy, PartialEq, Eq, Structural, Debug)]
pub struct GlobalCoords {
    pub x: i64,
    pub y: i64,
    pub z: i64,
}

impl ChunkCoords {
    pub fn new(x: i32, y: i32, z: i32) -> (r: ChunkCoords)
        ensures
            r == (ChunkCoords { x, y, z }),
    {
        ChunkCoords { x, y, z }
    }
}

impl LocalCoords {
    pub open spec fn wf(self) -> bool {
        self.x < 16 && self.y < 16 && self.z < 16
    }

    /// Dense index of this voxel inside its chunk's grid, in `[0, 4096)`.
    pub open spec fn index(self) -> int {
        self.x * 256 + self.y * 16 + self.z
    }

    pub fn new(x: u8, y: u8, z: u8) -> (r: LocalCoords)
        requires
            x < 16,
            y < 16,
            z < 16,
        ensures
            r == (LocalCoords { x, y, z }),
            r.wf(),
    {
        LocalCoords { x, y, z }
    }

    pub fn flat_index(self) -> (r: usize)
        requires
            self.wf(),
        ensures
            r == self.index(),
            r < 4096,
    {
        (self.x as usize) * 256 + (self.y as usize) * 16 + (self.z as usize)
    }

    /// Two well-formed local coordinates with one dense index are one voxel.
    pub proof fn lemma_index_injective(a: LocalCoords, b: LocalCoords)
        requires
            a.wf(),
            b.wf(),
            a.index() == b.index(),
        ensures
            a == b,
    {
    }
}

impl GlobalCoords {
    pub open spec fn wf(self) -> bool {
        &&& -WORLD_EXTENT <= self.x < WORLD_EXTENT
        &&& -WORLD_EXTENT <= self.y < WORLD_EXTENT
        &&& -WORLD_EXTENT <= self.z < WORLD_EXTENT
    }

    pub fn new(x: i64, y: i64, z: i64) -> (r: GlobalCoords)
        ensures
            r == (GlobalCoords { x, y, z }),
    {
        GlobalCoords { x, y, z }
    }
}

/// A small displacement between voxels or between chunks, such as a face
/// normal or a neighbourhood delta.
#[derive(Clone, Copy, PartialEq, Eq, Structural, Debug)]
pub struct Offset {
    pub x: i8,
    pub y: i8,
    pub z: i8,
}

impl Offset {
    pub fn new(x: i8, y: i8, z: i8) -> (r: Offset)
        ensures
            r == (Offset { x, y, z }),
    {
        Offset { x, y, z }
    }

    /// The upward unit normal.
    pub open spec fn spec_is_up(self) -> bool {
        self == (Offset { x: 0i8, y: 1i8, z: 0i8 })
    }

    pub fn is_up(self) -> (r: bool)
        ensures
            r == self.spec_is_up(),
    {
        self.x == 0 && self.y == 1 && self.z == 0
    }
}

impl GlobalCoords {
    /// The voxel displaced from `self` by `o`; meaningful when the result is
    /// in world range.
    pub open spec fn spec_offset(self, o: Offset) -> GlobalCoords {
        GlobalCoords {
            x: (self.x + o.x) as i64,
            y: (self.y + o.y) as i64,
            z: (self.z + o.z) as i64,
        }
    }

    /// The voxel displaced from `self` by `o`, or nothing where that leaves
    /// the addressable world.
    pub fn offset(self, o: Offset) -> (r: Option<GlobalCoords>)
        requires
            self.wf(),
        ensures
            r matches Some(g) ==> g == self.spec_offset(o) && g.wf(),
            r is None ==> !self.spec_offset(o).wf(),
    {
        let x = self.x + o.x as i64;
        let y = self.y + o.y as i64;
        let z = self.z + o.z as i64;
        if -WORLD_EXTENT <= x && x < WORLD_EXTENT && -WORLD_EXTENT <= y && y < WORLD_EXTENT
            && -WORLD_EXTENT <= z && z < WORLD_EXTENT {
            Some(GlobalCoords { x, y, z })
        } else {
            None
        }
    }
}

impl Offset {
    /// Whether every component lies within `r` of zero.
    pub open spec fn within(self, r: int) -> bool {
        &&& -r <= self.x <= r
        &&& -r <= self.y <= r
        &&& -r <= self.z <= r
    }
}

impl ChunkCoords {
    /// The chunk displaced from `self` by `o`; meaningful when no component
    /// leaves `i32` range.
    pub open spec fn spec_offset(self, o: Offset) -> ChunkCoords {
        ChunkCoords { x: (self.x + o.x) as i32, y: (self.y + o.y) as i32, z: (self.z + o.z) as i32 }
    }

    /// The chunk displaced from `self` by `o`, or nothing where that leaves
    /// the chunk grid.
    pub fn offset(self, o: Offset) -> (r: Option<ChunkCoords>)
        ensures
            r matches Some(c) ==> c == self.spec_offset(o) && self.x + o.x == c.x && self.y + o.y
                == c.y && self.z + o.z == c.z,
            r is None ==> !(i32::MIN <= self.x + o.x <= i32::MAX && i32::MIN <= self.y + o.y
                <= i32::MAX && i32::MIN <= self.z + o.z <= i32::MAX),
    {
        let x = self.x as i64 + o.x as i64;
        let y = self.y as i64 + o.y as i64;
        let z = self.z as i64 + o.z as i64;
        if i32::MIN as i64 <= x && x <= i32::MAX as i64 && i32::MIN as i64 <= y && y
            <= i32::MAX as i64 && i32::MIN as i64 <= z && z <= i32::MAX as i64 {
            Some(ChunkCoords { x: x as i32, y: y as i32, z: z as i32 })
        } else {
            None
        }
    }
}

/// Every offset whose components lie within `radius` of zero, each exactly
/// once, in lexicographic order.
pub fn cube_offsets(radius: i8) -> (r: Vec<Offset>)
    requires
        0 <= radius,
    ensures
        forall|o: Offset| #[trigger] r@.contains(o) <==> o.within(radius as int),
        forall|a: int, b: int| 0 <= a < b < r@.len() ==> #[trigger] r@[a] != #[trigger] r@[b],
{
    let mut r: Vec<Offset> = Vec::new();
    let side: i16 = 2 * (radius as i16) + 1;
    let mut xi: i16 = 0;
    while xi < side
        invariant
            side == 2 * radius + 1,
            0 <= radius,
            0 <= xi <= side,
            forall|o: Offset| #[trigger]
                r@.contains(o) <==> o.within(radius as int) && o.x + radius < xi,
            forall|a: int, b: int| 0 <= a < b < r@.len() ==> #[trigger] r@[a] != #[trigger] r@[b],
        decreases side - xi,
    {
        let mut yi: i16 = 0;
        while yi < side
            invariant
                side == 2 * radius + 1,
                0 <= radius,
                0 <= xi < side,
                0 <= yi <= side,
                forall|o: Offset| #[trigger]
                    r@.contains(o) <==> o.within(radius as int) && (o.x + radius < xi || (o.x
                        + radius == xi && o.y + radius < yi)),
                forall|a: int, b: int| 0 <= a < b < r@.len() ==> #[trigger] r@[a] != #[trigger] r@[b],
            decreases side - yi,
        {
            let mut zi: i16 = 0;
            while zi < side
                invariant
                    side == 2 * radius + 1,
                    0 <= radius,
                    0 <= xi < side,
                    0 <= yi < side,
                    0 <= zi <= side,
                    forall|o: Offset| #[trigger]
                        r@.contains(o) <==> o.within(radius as int) && (o.x + radius < xi || (o.x
                            + radius == xi && (o.y + radius < yi || (o.y + radius == yi && o.z
                            + radius < zi)))),
                    forall|a: int, b: int| 0 <= a < b < r@.len() ==> #[trigger] r@[a] != #[trigger] r@[b],
                decreases side - zi,
            {
                let o = Offset {
                    x: (xi - radius as i16) as i8,
                    y: (yi - radius as i16) as i8,
                    z: (zi - radius as i16) as i8,
                };
                let ghost r_before = r@;
                proof {
                    assert(!r_before.contains(o));
                }
                r.push(o);
                proof {
                    assert forall|q: Offset| #[trigger]
                        r@.contains(q) <==> q.within(radius as int) && (q.x + radius < xi || (q.x
                            + radius == xi && (q.y + radius < yi || (q.y + radius == yi && q.z
                            + radius < zi + 1)))) by {
                        vstd::seq_lib::lemma_seq_contains_after_push(r_before, o, q);
                    }
                    assert forall|a: int, b: int|
                        0 <= a < b < r@.len() implies #[trigger] r@[a] != #[trigger] r@[b] by {
                        if b == r@.len() - 1 {
                            assert(r_before.contains(r_before[a]));
                        }
                    }
                }
                zi += 1;
            }
            yi += 1;
        }
        xi += 1;
    }
    r
}

/// Chunk that owns the voxel at world coordinate `c`, per axis: the floor of
/// `c / 16`.
pub open spec fn spec_chunk_axis(c: int) -> int {
    c / 16
}

/// Position of the voxel at world coordinate `c` inside its chunk, per axis:
/// `c` modulo 16, in `[0, 16)`.
pub open spec fn spec_local_axis(c: int) -> int {
    c % 16
}

/// Chunk coordinates of the chunk that owns a world voxel.
pub open spec fn spec_chunk_coords(g: GlobalCoords) -> ChunkCoords {
    ChunkCoords {
        x: spec_chunk_axis(g.x as int) as i32,
        y: spec_chunk_axis(g.y as int) as i32,
        z: spec_chunk_axis(g.z as int) as i32,
    }
}

/// Local coordinates of a world voxel inside its owning chunk.
pub open spec fn spec_local_coords(g: GlobalCoords) -> LocalCoords {
    LocalCoords {
        x: spec_local_axis(g.x as int) as u8,
        y: spec_local_axis(g.y as int) as u8,
        z: spec_local_axis(g.z as int) as u8,
    }
}

/// World coordinates of the voxel at `l` inside the chunk at `c`.
pub open spec fn spec_global_coords(c: ChunkCoords, l: LocalCoords) -> GlobalCoords {
    GlobalCoords {
        x: (c.x * 16 + l.x) as i64,
        y: (c.y * 16 + l.y) as i64,
        z: (c.z * 16 + l.z) as i64,
    }
}

/// Splits one world axis into its chunk axis and local axis.
fn split_axis(c: i64) -> (r: (i32, u8))
    requires
        -WORLD_EXTENT <= c < WORLD_EXTENT,
    ensures
        r.0 == spec_chunk_axis(c as int),
        r.1 == spec_local_axis(c as int),
        r.1 < 16,
{
    let shifted: u64 = (c + WORLD_EXTENT) as u64;
    let q: u64 = shifted / 16;
    let r: u64 = shifted % 16;
    proof {
        lemma_fundamental_div_mod(shifted as int, 16);
        lemma_fundamental_div_mod_converse(
            c as int,
            16,
            q as int - 2147483648,
            r as int,
        );
    }
    ((q as i64 - 2147483648) as i32, r as u8)
}

/// Chunk coordinates of the chunk that owns the voxel at `g`.
pub fn chunk_coords(g: GlobalCoords) -> (r: ChunkCoords)
    requires
        g.wf(),
    ensures
        r == spec_chunk_coords(g),
{
    ChunkCoords { x: split_axis(g.x).0, y: split_axis(g.y).0, z: split_axis(g.z).0 }
}

/// Coordinates of the voxel at `g` inside its owning chunk.
pub fn local_coords(g: GlobalCoords) -> (r: LocalCoords)
    requires
        g.wf(),
    ensures
        r == spec_local_coords(g),
        r.wf(),
{
    let r = LocalCoords { x: split_axis(g.x).1, y: split_axis(g.y).1, z: split_axis(g.z).1 };
    proof {
        lemma_local_axis_bounds(g.x as int);
        lemma_local_axis_bounds(g.y as int);
        lemma_local_axis_bounds(g.z as int);
    }
    r
}

/// World coordinates of the voxel at `l` inside the chunk at `c`.
pub fn global_coords(c: ChunkCoords, l: LocalCoords) -> (r: GlobalCoords)
    requires
        l.wf(),
    ensures
        r == spec_global_coords(c, l),
        r.wf(),
{
    GlobalCoords {
        x: c.x as i64 * 16 + l.x as i64,
        y: c.y as i64 * 16 + l.y as i64,
        z: c.z as i64 * 16 + l.z as i64,
    }
}

/// The local coordinates whose dense index is `i`, inverse of
/// [`LocalCoords::index`].
pub fn local_from_index(i: usize) -> (l: LocalCoords)
    requires
        i < 4096,
    ensures
        l.wf(),
        l.index() == i,
{
    let r: usize = i % 256;
    proof {
        vstd::arithmetic::div_mod::lemma_fundamental_div_mod(i as int, 256);
        vstd::arithmetic::div_mod::lemma_mod_bound(i as int, 256);
        vstd::arithmetic::div_mod::lemma_fundamental_div_mod(r as int, 16);
        vstd::arithmetic::div_mod::lemma_mod_bound(r as int, 16);
    }
    LocalCoords { x: (i / 256) as u8, y: (r / 16) as u8, z: (r % 16) as u8 }
}

/// A local axis value always lies inside a chunk's extent.
pub proof fn lemma_local_axis_bounds(c: int)
    ensures
        0 <= spec_local_axis(c) < 16,
{
    lemma_fundamental_div_mod(c, 16);
    vstd::arithmetic::div_mod::lemma_mod_bound(c, 16);
}

proof fn lemma_split_axis(c: int, q: int, l: int)
    requires
        c == q * 16 + l,
        0 <= l < 16,
    ensures
        spec_chunk_axis(c) == q,
        spec_local_axis(c) == l,
{
    lemma_fundamental_div_mod_converse(c, 16, q, l);
}

/// Composing a world coordinate from its chunk and local parts gives the
/// coordinate back: the chunk/local decomposition is exact.
pub proof fn lemma_coords_round_trip(g: GlobalCoords)
    requires
        g.wf(),
    ensures
        spec_global_coords(spec_chunk_coords(g), spec_local_coords(g)) == g,
        spec_local_coords(g).wf(),
{
    lemma_fundamental_div_mod(g.x as int, 16);
    lemma_fundamental_div_mod(g.y as int, 16);
    lemma_fundamental_div_mod(g.z as int, 16);
}

/// Decomposing a composed world coordinate gives the chunk and local parts
/// back: chunk and local coordinates address voxels uniquely.
pub proof fn lemma_coords_decompose(c: ChunkCoords, l: LocalCoords)
    requires
        l.wf(),
    ensures
        spec_global_coords(c, l).wf(),
        spec_chunk_coords(spec_global_coords(c, l)) == c,
        spec_local_coords(spec_global_coords(c, l)) == l,
{
    let g = spec_global_coords(c, l);
    lemma_split_axis(g.x as int, c.x as int, l.x as int);
    lemma_split_axis(g.y as int, c.y as int, l.y as int);
    lemma_split_axis(g.z as int, c.z as int, l.z as int);
}

} // verus!
