//! Meshing snapshots: the bit-packed opacity neighbourhood of one voxel, side
//! visibility, per-corner ambient occlusion, and the vertices a chunk payload
//! contributes to the renderer. All of it is pure: it depends only on the
//! snapshot, never on mutable store state.

use crate::block::{Block, BlockTable};
use crate::coords::{cube_offsets, LocalCoords, Offset};
use crate::protocol::ChunkPayload;
use vstd::prelude::*;

verus! {

/// One face of a voxel cube.
#[derive(Clone, Copy, PartialEq, Eq, Structural, Debug)]
pub enum Side {
    Front,
    Right,
    Back,
    Left,
    Up,
    Down,
}

/// One corner of a voxel face, in texture order.
#[derive(Clone, Copy, PartialEq, Eq, Structural, Debug)]
pub enum Corner {
    LowerLeft,
    LowerRight,
    UpperRight,
    UpperLeft,
}

/// One of the three neighbour cells that shade a face corner: the two
/// edge-adjacent cells and the diagonal cell.
#[derive(Clone, Copy, PartialEq, Eq, Structural, Debug)]
pub enum Component {
    Edge1,
    Edge2,
    Corner,
}

/// The axis family of a face, which picks the renderer's shading constant.
#[derive(Clone, Copy, PartialEq, Eq, Structural, Debug)]
pub enum Face {
    X,
    Ypos,
    Yneg,
    Z,
}

impl Side {
    /// The unit offset out of a face.
    pub open spec fn spec_delta(self) -> Offset {
        match self {
            Side::Front => Offset { x: 0i8, y: 0i8, z: -1i8 },
            Side::Right => Offset { x: 1i8, y: 0i8, z: 0i8 },
            Side::Back => Offset { x: 0i8, y: 0i8, z: 1i8 },
            Side::Left => Offset { x: -1i8, y: 0i8, z: 0i8 },
            Side::Up => Offset { x: 0i8, y: 1i8, z: 0i8 },
            Side::Down => Offset { x: 0i8, y: -1i8, z: 0i8 },
        }
    }

    pub fn delta(self) -> (r: Offset)
        ensures
            r == self.spec_delta(),
            r.within(1),
    {
        match self {
            Side::Front => Offset { x: 0, y: 0, z: -1 },
            Side::Right => Offset { x: 1, y: 0, z: 0 },
            Side::Back => Offset { x: 0, y: 0, z: 1 },
            Side::Left => Offset { x: -1, y: 0, z: 0 },
            Side::Up => Offset { x: 0, y: 1, z: 0 },
            Side::Down => Offset { x: 0, y: -1, z: 0 },
        }
    }

    /// The side at a dense index, for iterating all six sides.
    pub fn from_index(i: u8) -> (r: Option<Side>)
        ensures
            i < 6 <==> r is Some,
            r matches Some(side) ==> side == spec_side(i as int),
    {
        match i {
            0 => Some(Side::Front),
            1 => Some(Side::Right),
            2 => Some(Side::Back),
            3 => Some(Side::Left),
            4 => Some(Side::Up),
            5 => Some(Side::Down),
            _ => None,
        }
    }

    /// The axis family of this side.
    pub open spec fn spec_face(self) -> Face {
        match self {
            Side::Left | Side::Right => Face::X,
            Side::Up => Face::Ypos,
            Side::Down => Face::Yneg,
            Side::Front | Side::Back => Face::Z,
        }
    }

    pub fn face(self) -> (r: Face)
        ensures
            r == self.spec_face(),
    {
        match self {
            Side::Left | Side::Right => Face::X,
            Side::Up => Face::Ypos,
            Side::Down => Face::Yneg,
            Side::Front | Side::Back => Face::Z,
        }
    }
}

/// The side with dense index `i`, inverse of the side iteration order.
pub open spec fn spec_side(i: int) -> Side {
    if i == 0 {
        Side::Front
    } else if i == 1 {
        Side::Right
    } else if i == 2 {
        Side::Back
    } else if i == 3 {
        Side::Left
    } else if i == 4 {
        Side::Up
    } else {
        Side::Down
    }
}

impl Corner {
    pub fn from_index(i: u8) -> (r: Option<Corner>)
        ensures
            i < 4 <==> r is Some,
    {
        match i {
            0 => Some(Corner::LowerLeft),
            1 => Some(Corner::LowerRight),
            2 => Some(Corner::UpperRight),
            3 => Some(Corner::UpperLeft),
            _ => None,
        }
    }
}

/// The two sides whose deltas, added to a face's own delta, reach a face
/// corner's neighbour cells.
pub open spec fn spec_corner_sides(side: Side, corner: Corner) -> (Side, Side) {
    match side {
        Side::Front => match corner {
            Corner::LowerLeft => (Side::Left, Side::Down),
            Corner::LowerRight => (Side::Right, Side::Down),
            Corner::UpperRight => (Side::Right, Side::Up),
            Corner::UpperLeft => (Side::Left, Side::Up),
        },
        Side::Right => match corner {
            Corner::LowerLeft => (Side::Front, Side::Down),
            Corner::LowerRight => (Side::Back, Side::Down),
            Corner::UpperRight => (Side::Back, Side::Up),
            Corner::UpperLeft => (Side::Front, Side::Up),
        },
        Side::Back => match corner {
            Corner::LowerLeft => (Side::Right, Side::Down),
            Corner::LowerRight => (Side::Left, Side::Down),
            Corner::UpperRight => (Side::Left, Side::Up),
            Corner::UpperLeft => (Side::Right, Side::Up),
        },
        Side::Left => match corner {
            Corner::LowerLeft => (Side::Back, Side::Down),
            Corner::LowerRight => (Side::Front, Side::Down),
            Corner::UpperRight => (Side::Front, Side::Up),
            Corner::UpperLeft => (Side::Back, Side::Up),
        },
        Side::Up => match corner {
            Corner::LowerLeft => (Side::Left, Side::Front),
            Corner::LowerRight => (Side::Right, Side::Front),
            Corner::UpperRight => (Side::Right, Side::Back),
            Corner::UpperLeft => (Side::Left, Side::Back),
        },
        Side::Down => match corner {
            Corner::LowerLeft => (Side::Left, Side::Back),
            Corner::LowerRight => (Side::Right, Side::Back),
            Corner::UpperRight => (Side::Right, Side::Front),
            Corner::UpperLeft => (Side::Left, Side::Front),
        },
    }
}

pub fn corner_sides(side: Side, corner: Corner) -> (r: (Side, Side))
    ensures
        r == spec_corner_sides(side, corner),
{
    match side {
        Side::Front => match corner {
            Corner::LowerLeft => (Side::Left, Side::Down),
            Corner::LowerRight => (Side::Right, Side::Down),
            Corner::UpperRight => (Side::Right, Side::Up),
            Corner::UpperLeft => (Side::Left, Side::Up),
        },
        Side::Right => match corner {
            Corner::LowerLeft => (Side::Front, Side::Down),
            Corner::LowerRight => (Side::Back, Side::Down),
            Corner::UpperRight => (Side::Back, Side::Up),
            Corner::UpperLeft => (Side::Front, Side::Up),
        },
        Side::Back => match corner {
            Corner::LowerLeft => (Side::Right, Side::Down),
            Corner::LowerRight => (Side::Left, Side::Down),
            Corner::UpperRight => (Side::Left, Side::Up),
            Corner::UpperLeft => (Side::Right, Side::Up),
        },
        Side::Left => match corner {
            Corner::LowerLeft => (Side::Back, Side::Down),
            Corner::LowerRight => (Side::Front, Side::Down),
            Corner::UpperRight => (Side::Front, Side::Up),
            Corner::UpperLeft => (Side::Back, Side::Up),
        },
        Side::Up => match corner {
            Corner::LowerLeft => (Side::Left, Side::Front),
            Corner::LowerRight => (Side::Right, Side::Front),
            Corner::UpperRight => (Side::Right, Side::Back),
            Corner::UpperLeft => (Side::Left, Side::Back),
        },
        Side::Down => match corner {
            Corner::LowerLeft => (Side::Left, Side::Back),
            Corner::LowerRight => (Side::Right, Side::Back),
            Corner::UpperRight => (Side::Right, Side::Front),
            Corner::UpperLeft => (Side::Left, Side::Front),
        },
    }
}

/// The neighbour cell a shading component reads, relative to the voxel: the
/// face delta plus one or both corner-side deltas.
pub open spec fn spec_component_delta(side: Side, corner: Corner, comp: Component) -> Offset {
    let d1 = side.spec_delta();
    let (s2, s3) = spec_corner_sides(side, corner);
    let d2 = s2.spec_delta();
    let d3 = s3.spec_delta();
    match comp {
        Component::Edge1 => Offset {
            x: (d1.x + d2.x) as i8,
            y: (d1.y + d2.y) as i8,
            z: (d1.z + d2.z) as i8,
        },
        Component::Edge2 => Offset {
            x: (d1.x + d3.x) as i8,
            y: (d1.y + d3.y) as i8,
            z: (d1.z + d3.z) as i8,
        },
        Component::Corner => Offset {
            x: (d1.x + d2.x + d3.x) as i8,
            y: (d1.y + d2.y + d3.y) as i8,
            z: (d1.z + d2.z + d3.z) as i8,
        },
    }
}

pub fn component_delta(side: Side, corner: Corner, comp: Component) -> (r: Offset)
    ensures
        r == spec_component_delta(side, corner, comp),
        r.within(1),
{
    let d1 = side.delta();
    let (s2, s3) = corner_sides(side, corner);
    let d2 = s2.delta();
    let d3 = s3.delta();
    match comp {
        Component::Edge1 => Offset { x: d1.x + d2.x, y: d1.y + d2.y, z: d1.z + d2.z },
        Component::Edge2 => Offset { x: d1.x + d3.x, y: d1.y + d3.y, z: d1.z + d3.z },
        Component::Corner => Offset {
            x: d1.x + d2.x + d3.x,
            y: d1.y + d2.y + d3.y,
            z: d1.z + d2.z + d3.z,
        },
    }
}

/// The bit-packed opacity snapshot of a voxel's 27-cell neighbourhood, with a
/// checked constructor and safe accessors only.
#[derive(Clone, Copy, PartialEq, Eq, Structural, Debug)]
pub struct BlockArea {
    bits: u32,
}

/// The bit that carries the opacity flag of the cell at offset `o`.
pub open spec fn spec_bit_index(o: Offset) -> int {
    (o.x + 1) * 9 + (o.y + 1) * 3 + (o.z + 1)
}

impl BlockArea {
    /// Whether the cell at offset `o` is opaque.
    pub closed spec fn spec_is_opaque(self, o: Offset) -> bool {
        self.bits >> (spec_bit_index(o) as u32) & 1u32 == 1u32
    }

    /// A fully transparent neighbourhood.
    pub fn new() -> (r: BlockArea)
        ensures
            forall|o: Offset| o.within(1) ==> !r.spec_is_opaque(o),
    {
        let r = BlockArea { bits: 0 };
        proof {
            assert forall|o: Offset| o.within(1) implies !r.spec_is_opaque(o) by {
                let i = spec_bit_index(o) as u32;
                assert(0u32 >> i & 1u32 == 0u32) by (bit_vector);
            }
        }
        r
    }

    /// Records the opacity of the cell at offset `o`.
    pub fn set(&mut self, o: Offset, is_opaque: bool)
        requires
            o.within(1),
        ensures
            final(self).spec_is_opaque(o) == is_opaque,
            forall|q: Offset|
                q.within(1) && q != o ==> final(self).spec_is_opaque(q) == old(
                    self,
                ).spec_is_opaque(q),
    {
        let idx: u32 = ((o.x as i32 + 1) * 9 + (o.y as i32 + 1) * 3 + (o.z as i32 + 1)) as u32;
        let old_bits = self.bits;
        if is_opaque {
            self.bits = self.bits | (1u32 << idx);
        } else {
            self.bits = self.bits & !(1u32 << idx);
        }
        proof {
            let b = old_bits;
            let nb = self.bits;
            assert forall|q: Offset| q.within(1) implies {
                let j = spec_bit_index(q) as u32;
                if q == o {
                    (nb >> j & 1u32 == 1u32) == is_opaque
                } else {
                    (nb >> j & 1u32) == (b >> j & 1u32)
                }
            } by {
                let j = spec_bit_index(q) as u32;
                assert(idx < 27 && j < 27);
                if q == o {
                    assert(j == idx);
                    if is_opaque {
                        assert(idx < 27 ==> (b | (1u32 << idx)) >> idx & 1u32 == 1u32)
                            by (bit_vector);
                    } else {
                        assert(idx < 27 ==> (b & !(1u32 << idx)) >> idx & 1u32 == 0u32)
                            by (bit_vector);
                    }
                } else {
                    assert(j != idx);
                    if is_opaque {
                        assert(idx < 27 && j < 27 && j != idx ==> (b | (1u32 << idx)) >> j & 1u32
                            == b >> j & 1u32) by (bit_vector);
                    } else {
                        assert(idx < 27 && j < 27 && j != idx ==> (b & !(1u32 << idx)) >> j & 1u32
                            == b >> j & 1u32) by (bit_vector);
                    }
                }
            }
        }
    }

    pub fn is_opaque(&self, o: Offset) -> (r: bool)
        requires
            o.within(1),
        ensures
            r == self.spec_is_opaque(o),
    {
        let idx: u32 = ((o.x as i32 + 1) * 9 + (o.y as i32 + 1) * 3 + (o.z as i32 + 1)) as u32;
        self.bits >> idx & 1 == 1
    }

    /// Whether the face behind `side` is visible: its immediate neighbour is
    /// not opaque.
    pub fn is_side_visible(&self, side: Side) -> (r: bool)
        ensures
            r == !self.spec_is_opaque(side.spec_delta()),
    {
        !self.is_opaque(side.delta())
    }
}

/// The ambient-occlusion level of one face corner: 0 when both edge-adjacent
/// cells are opaque, else 3 less one per occupied neighbour cell.
pub open spec fn spec_ao(area: BlockArea, side: Side, corner: Corner) -> int {
    let e1 = area.spec_is_opaque(spec_component_delta(side, corner, Component::Edge1));
    let e2 = area.spec_is_opaque(spec_component_delta(side, corner, Component::Edge2));
    let c = area.spec_is_opaque(spec_component_delta(side, corner, Component::Corner));
    if e1 && e2 {
        0
    } else {
        3 - (if e1 {
            1int
        } else {
            0
        }) - (if e2 {
            1int
        } else {
            0
        }) - (if c {
            1int
        } else {
            0
        })
    }
}

/// Computes a corner's ambient-occlusion level.
pub fn ao_level(area: &BlockArea, side: Side, corner: Corner) -> (r: u8)
    ensures
        r == spec_ao(*area, side, corner),
        0 <= r <= 3,
{
    let e1 = area.is_opaque(component_delta(side, corner, Component::Edge1));
    let e2 = area.is_opaque(component_delta(side, corner, Component::Edge2));
    let c = area.is_opaque(component_delta(side, corner, Component::Corner));
    if e1 && e2 {
        0
    } else {
        3 - (if e1 {
            1u8
        } else {
            0
        }) - (if e2 {
            1u8
        } else {
            0
        }) - (if c {
            1u8
        } else {
            0
        })
    }
}

/// Ambient occlusion is bounded by the corner's quarter-levels, and vanishes
/// exactly when both edge-adjacent neighbour cells are opaque.
pub proof fn lemma_ao_bounds(area: BlockArea, side: Side, corner: Corner)
    ensures
        0 <= spec_ao(area, side, corner) <= 3,
        spec_ao(area, side, corner) == 0 <==> (area.spec_is_opaque(
            spec_component_delta(side, corner, Component::Edge1),
        ) && area.spec_is_opaque(spec_component_delta(side, corner, Component::Edge2))),
{
}

/// One mesh vertex handed to the renderer: a face corner's position inside
/// the chunk, its texture tag, face family, ambient occlusion and light.
#[derive(Clone, Copy, PartialEq, Eq, Structural, Debug)]
pub struct BlockVertex {
    pub x: u8,
    pub y: u8,
    pub z: u8,
    pub tex: u8,
    pub face: Face,
    pub ao: u8,
    pub light: u8,
}

/// Opacity of the cell at offset `o` from the voxel `l`, read from a chunk's
/// own blocks; cells outside the chunk count as transparent.
pub open spec fn spec_cell_opaque(
    blocks: Seq<Block>,
    t: BlockTable,
    l: LocalCoords,
    o: Offset,
) -> bool {
    let nx = l.x + o.x;
    let ny = l.y + o.y;
    let nz = l.z + o.z;
    if 0 <= nx < 16 && 0 <= ny < 16 && 0 <= nz < 16 {
        t.spec_data(blocks[nx * 256 + ny * 16 + nz]).is_opaque
    } else {
        false
    }
}

/// Whether the face behind `side` of the voxel `l` is drawn: its immediate
/// neighbour is not opaque.
pub open spec fn spec_side_visible(
    blocks: Seq<Block>,
    t: BlockTable,
    l: LocalCoords,
    side: Side,
) -> bool {
    !spec_cell_opaque(blocks, t, l, side.spec_delta())
}

/// The ambient occlusion the chunk's own blocks give a face corner.
pub open spec fn spec_payload_ao(
    blocks: Seq<Block>,
    t: BlockTable,
    l: LocalCoords,
    side: Side,
    corner: Corner,
) -> int {
    let e1 = spec_cell_opaque(blocks, t, l, spec_component_delta(side, corner, Component::Edge1));
    let e2 = spec_cell_opaque(blocks, t, l, spec_component_delta(side, corner, Component::Edge2));
    let c = spec_cell_opaque(blocks, t, l, spec_component_delta(side, corner, Component::Corner));
    if e1 && e2 {
        0
    } else {
        3 - (if e1 {
            1int
        } else {
            0
        }) - (if e2 {
            1int
        } else {
            0
        }) - (if c {
            1int
        } else {
            0
        })
    }
}

/// The occlusion a corner's vertex carries: its ambient-occlusion level when
/// the block takes smooth lighting, full brightness otherwise.
pub open spec fn spec_corner_ao(
    blocks: Seq<Block>,
    t: BlockTable,
    l: LocalCoords,
    side: Side,
    corner: Corner,
) -> int {
    if t.spec_data(blocks[l.index()]).smooth_lighting {
        spec_payload_ao(blocks, t, l, side, corner)
    } else {
        3
    }
}

/// The corner's vertex position relative to the voxel's lower corner, each
/// component 0 or 1.
pub open spec fn spec_corner_offset(side: Side, corner: Corner) -> (int, int, int) {
    let d1 = side.spec_delta();
    let s23 = spec_corner_sides(side, corner);
    let d2 = s23.0.spec_delta();
    let d3 = s23.1.spec_delta();
    (
        ((d1.x + d2.x + d3.x) + 1) / 2,
        ((d1.y + d2.y + d3.y) + 1) / 2,
        ((d1.z + d2.z + d3.z) + 1) / 2,
    )
}

/// The six corners of a face in draw order: the diagonal is flipped when the
/// lower-left/upper-right corners are brighter, avoiding the seam artifact.
pub open spec fn spec_winding(a00: int, a10: int, a11: int, a01: int) -> Seq<Corner> {
    if a00 + a11 > a10 + a01 {
        seq![
            Corner::LowerLeft,
            Corner::LowerRight,
            Corner::UpperRight,
            Corner::LowerLeft,
            Corner::UpperRight,
            Corner::UpperLeft,
        ]
    } else {
        seq![
            Corner::LowerLeft,
            Corner::LowerRight,
            Corner::UpperLeft,
            Corner::LowerRight,
            Corner::UpperRight,
            Corner::UpperLeft,
        ]
    }
}

/// The vertex the voxel `l` contributes for `corner` of its face behind
/// `side`.
pub open spec fn spec_vertex(
    blocks: Seq<Block>,
    light: Seq<u8>,
    t: BlockTable,
    l: LocalCoords,
    side: Side,
    corner: Corner,
) -> BlockVertex {
    BlockVertex {
        x: (l.x + spec_corner_offset(side, corner).0) as u8,
        y: (l.y + spec_corner_offset(side, corner).1) as u8,
        z: (l.z + spec_corner_offset(side, corner).2) as u8,
        tex: blocks[l.index()].spec_index() as u8,
        face: side.spec_face(),
        ao: spec_corner_ao(blocks, t, l, side, corner) as u8,
        light: light[l.index()],
    }
}

/// The six vertices of one drawn face, in draw order.
pub open spec fn spec_face_seq(
    blocks: Seq<Block>,
    light: Seq<u8>,
    t: BlockTable,
    l: LocalCoords,
    side: Side,
) -> Seq<BlockVertex> {
    let order = spec_winding(
        spec_corner_ao(blocks, t, l, side, Corner::LowerLeft),
        spec_corner_ao(blocks, t, l, side, Corner::LowerRight),
        spec_corner_ao(blocks, t, l, side, Corner::UpperRight),
        spec_corner_ao(blocks, t, l, side, Corner::UpperLeft),
    );
    Seq::new(6, |k: int| spec_vertex(blocks, light, t, l, side, order[k]))
}

/// The vertices the voxel `l` contributes through its first `n` sides: six
/// per visible face of a non-air block.
pub open spec fn spec_voxel_seq_upto(
    blocks: Seq<Block>,
    light: Seq<u8>,
    t: BlockTable,
    l: LocalCoords,
    n: int,
) -> Seq<BlockVertex>
    decreases n,
{
    if n <= 0 {
        Seq::empty()
    } else {
        spec_voxel_seq_upto(blocks, light, t, l, n - 1) + (if blocks[l.index()] != Block::Air
            && spec_side_visible(blocks, t, l, spec_side(n - 1)) {
            spec_face_seq(blocks, light, t, l, spec_side(n - 1))
        } else {
            Seq::empty()
        })
    }
}

/// The local coordinates with dense index `i`.
pub open spec fn spec_local_of(i: int) -> LocalCoords {
    LocalCoords { x: (i / 256) as u8, y: ((i % 256) / 16) as u8, z: ((i % 256) % 16) as u8 }
}

/// The inverse index map is well formed and exact.
pub proof fn lemma_local_of(i: int)
    requires
        0 <= i < 4096,
    ensures
        spec_local_of(i).wf(),
        spec_local_of(i).index() == i,
{
    vstd::arithmetic::div_mod::lemma_fundamental_div_mod(i, 256);
    vstd::arithmetic::div_mod::lemma_mod_bound(i, 256);
    vstd::arithmetic::div_mod::lemma_fundamental_div_mod(i % 256, 16);
    vstd::arithmetic::div_mod::lemma_mod_bound(i % 256, 16);
}

/// The whole mesh of a chunk's first `n` voxels, in voxel order.
pub open spec fn spec_chunk_seq_upto(
    blocks: Seq<Block>,
    light: Seq<u8>,
    t: BlockTable,
    n: int,
) -> Seq<BlockVertex>
    decreases n,
{
    if n <= 0 {
        Seq::empty()
    } else {
        spec_chunk_seq_upto(blocks, light, t, n - 1) + spec_voxel_seq_upto(
            blocks,
            light,
            t,
            spec_local_of(n - 1),
            6,
        )
    }
}

/// The whole mesh of a chunk payload: for every non-air voxel, six vertices
/// per visible face, in voxel and side order.
pub open spec fn spec_chunk_vertices(
    blocks: Seq<Block>,
    light: Seq<u8>,
    t: BlockTable,
) -> Seq<BlockVertex> {
    spec_chunk_seq_upto(blocks, light, t, 4096)
}

/// An air voxel contributes no vertices.
proof fn lemma_voxel_air(
    blocks: Seq<Block>,
    light: Seq<u8>,
    t: BlockTable,
    l: LocalCoords,
    n: int,
)
    requires
        0 <= l.index() < blocks.len(),
        blocks[l.index()] == Block::Air,
    ensures
        spec_voxel_seq_upto(blocks, light, t, l, n) =~= Seq::<BlockVertex>::empty(),
    decreases n,
{
    if n > 0 {
        lemma_voxel_air(blocks, light, t, l, n - 1);
    }
}

/// The six corners of a face in draw order, flipped when the anisotropy rule
/// asks for it.
fn winding(a00: u8, a10: u8, a11: u8, a01: u8) -> (r: [Corner; 6])
    ensures
        r@ =~= spec_winding(a00 as int, a10 as int, a11 as int, a01 as int),
{
    if a00 as u16 + a11 as u16 > a10 as u16 + a01 as u16 {
        [
            Corner::LowerLeft,
            Corner::LowerRight,
            Corner::UpperRight,
            Corner::LowerLeft,
            Corner::UpperRight,
            Corner::UpperLeft,
        ]
    } else {
        [
            Corner::LowerLeft,
            Corner::LowerRight,
            Corner::UpperLeft,
            Corner::LowerRight,
            Corner::UpperRight,
            Corner::UpperLeft,
        ]
    }
}

/// The corner's vertex position relative to the voxel's lower corner, each
/// component 0 or 1.
#[verifier::rlimit(100)]
fn corner_vertex_offset(side: Side, corner: Corner) -> (r: (u8, u8, u8))
    ensures
        r.0 <= 1 && r.1 <= 1 && r.2 <= 1,
        r.0 == spec_corner_offset(side, corner).0,
        r.1 == spec_corner_offset(side, corner).1,
        r.2 == spec_corner_offset(side, corner).2,
{
    let d1 = side.delta();
    let (s2, s3) = corner_sides(side, corner);
    let d2 = s2.delta();
    let d3 = s3.delta();
    let x = d1.x + d2.x + d3.x;
    let y = d1.y + d2.y + d3.y;
    let z = d1.z + d2.z + d3.z;
    (((x + 1) / 2) as u8, ((y + 1) / 2) as u8, ((z + 1) / 2) as u8)
}

/// Every shading component's cell lies in the voxel's immediate
/// neighbourhood.
proof fn lemma_component_within(side: Side, corner: Corner, comp: Component)
    ensures
        spec_component_delta(side, corner, comp).within(1),
{
}

/// The snapshot of one voxel's neighbourhood gives the same ambient
/// occlusion as the payload it was built from.
proof fn lemma_area_ao(
    area: BlockArea,
    blocks: Seq<Block>,
    t: BlockTable,
    l: LocalCoords,
    side: Side,
    corner: Corner,
)
    requires
        forall|o: Offset|
            o.within(1) ==> #[trigger] area.spec_is_opaque(o) == spec_cell_opaque(
                blocks,
                t,
                l,
                o,
            ),
    ensures
        spec_ao(area, side, corner) == spec_payload_ao(blocks, t, l, side, corner),
{
    lemma_component_within(side, corner, Component::Edge1);
    lemma_component_within(side, corner, Component::Edge2);
    lemma_component_within(side, corner, Component::Corner);
}

/// The mesh vertices one chunk payload contributes: for every non-air voxel,
/// six vertices per visible face — in voxel and side order, wound by the
/// anisotropy rule — each carrying its corner position, the block's texture
/// tag, the face family, the corner's ambient occlusion (full brightness
/// where the block forgoes smooth lighting) and the voxel's light.
/// Neighbours outside the payload count as transparent.
pub fn vertices_for(payload: &ChunkPayload, t: &BlockTable) -> (r: Vec<BlockVertex>)
    requires
        payload.wf(),
        t.wf(),
    ensures
        r@ =~= spec_chunk_vertices(payload.blocks@, payload.light@, *t),
        forall|i: int| 0 <= i < r@.len() ==> (#[trigger] r@[i]).ao <= 3,
{
    let ghost blocks = payload.blocks@;
    let ghost lightv = payload.light@;
    let mut out: Vec<BlockVertex> = Vec::new();
    let offsets = cube_offsets(1);
    let mut vi: usize = 0;
    while vi < 4096
        invariant
            payload.wf(),
            blocks == payload.blocks@,
            lightv == payload.light@,
            t.wf(),
            vi <= 4096,
            forall|o: Offset| #[trigger] offsets@.contains(o) <==> o.within(1),
            out@ =~= spec_chunk_seq_upto(blocks, lightv, *t, vi as int),
            forall|i: int| 0 <= i < out@.len() ==> (#[trigger] out@[i]).ao <= 3,
        decreases 4096 - vi,
    {
        let l = crate::coords::local_from_index(vi);
        proof {
            lemma_local_of(vi as int);
            crate::coords::LocalCoords::lemma_index_injective(l, spec_local_of(vi as int));
        }
        let block = payload.blocks[vi];
        if block != Block::Air {
            let mut area = BlockArea::new();
            let mut oi: usize = 0;
            while oi < offsets.len()
                invariant
                    payload.wf(),
                    blocks == payload.blocks@,
                    t.wf(),
                    l.wf(),
                    oi <= offsets@.len(),
                    forall|o: Offset| #[trigger] offsets@.contains(o) <==> o.within(1),
                    forall|o: Offset|
                        (exists|j: int| 0 <= j < oi && #[trigger] offsets@[j] == o)
                            ==> area.spec_is_opaque(o) == spec_cell_opaque(blocks, *t, l, o),
                    forall|o: Offset|
                        !(exists|j: int| 0 <= j < oi && #[trigger] offsets@[j] == o) && o.within(
                            1,
                        ) ==> !area.spec_is_opaque(o),
                decreases offsets@.len() - oi,
            {
                let o = offsets[oi];
                proof {
                    assert(offsets@.contains(offsets@[oi as int]));
                }
                let ghost area_before = area;
                let nx = l.x as i16 + o.x as i16;
                let ny = l.y as i16 + o.y as i16;
                let nz = l.z as i16 + o.z as i16;
                if 0 <= nx && nx < 16 && 0 <= ny && ny < 16 && 0 <= nz && nz < 16 {
                    let nl = LocalCoords { x: nx as u8, y: ny as u8, z: nz as u8 };
                    let nb = payload.blocks[nl.flat_index()];
                    area.set(o, t.data(nb).is_opaque);
                } else {
                    area.set(o, false);
                }
                proof {
                    assert forall|q: Offset|
                        (exists|j: int| 0 <= j < oi + 1 && #[trigger] offsets@[j] == q) implies
                        area.spec_is_opaque(q) == spec_cell_opaque(blocks, *t, l, q) by {
                        if q != o {
                            let j = choose|j: int| 0 <= j < oi + 1 && #[trigger] offsets@[j] == q;
                            assert(j < oi);
                            assert(offsets@.contains(offsets@[j]));
                            assert(area_before.spec_is_opaque(q) == spec_cell_opaque(
                                blocks,
                                *t,
                                l,
                                q,
                            ));
                        }
                    }
                    assert forall|q: Offset|
                        !(exists|j: int| 0 <= j < oi + 1 && #[trigger] offsets@[j] == q)
                            && q.within(1) implies !area.spec_is_opaque(q) by {
                        assert(offsets@[oi as int] != q);
                        assert(!(exists|j: int| 0 <= j < oi && #[trigger] offsets@[j] == q));
                    }
                }
                oi += 1;
            }
            proof {
                assert forall|o: Offset| o.within(1) implies #[trigger] area.spec_is_opaque(o)
                    == spec_cell_opaque(blocks, *t, l, o) by {
                    assert(offsets@.contains(o));
                    let j = choose|j: int| 0 <= j < offsets@.len() && offsets@[j] == o;
                }
            }
            let data = t.data(block);
            let smooth = data.smooth_lighting;
            let tex = block.index();
            let light_here = payload.light[vi];
            let mut si: u8 = 0;
            while si < 6
                invariant
                    payload.wf(),
                    blocks == payload.blocks@,
                    lightv == payload.light@,
                    t.wf(),
                    l.wf(),
                    l.index() == vi,
                    vi < 4096,
                    si <= 6,
                    block == blocks[l.index()],
                    block != Block::Air,
                    smooth == t.spec_data(block).smooth_lighting,
                    tex == block.spec_index(),
                    light_here == lightv[l.index()],
                    forall|o: Offset|
                        o.within(1) ==> #[trigger] area.spec_is_opaque(o) == spec_cell_opaque(
                            blocks,
                            *t,
                            l,
                            o,
                        ),
                    out@ =~= spec_chunk_seq_upto(blocks, lightv, *t, vi as int)
                        + spec_voxel_seq_upto(blocks, lightv, *t, l, si as int),
                    forall|i: int| 0 <= i < out@.len() ==> (#[trigger] out@[i]).ao <= 3,
                decreases 6 - si,
            {
                let side = match Side::from_index(si) {
                    Some(s) => s,
                    None => unreached(),
                };
                let ghost out_before = out@;
                if area.is_side_visible(side) {
                    proof {
                        assert(side.spec_delta().within(1));
                        assert(spec_side_visible(blocks, *t, l, side));
                    }
                    let a00 = if smooth {
                        ao_level(&area, side, Corner::LowerLeft)
                    } else {
                        3
                    };
                    let a10 = if smooth {
                        ao_level(&area, side, Corner::LowerRight)
                    } else {
                        3
                    };
                    let a11 = if smooth {
                        ao_level(&area, side, Corner::UpperRight)
                    } else {
                        3
                    };
                    let a01 = if smooth {
                        ao_level(&area, side, Corner::UpperLeft)
                    } else {
                        3
                    };
                    proof {
                        lemma_area_ao(area, blocks, *t, l, side, Corner::LowerLeft);
                        lemma_area_ao(area, blocks, *t, l, side, Corner::LowerRight);
                        lemma_area_ao(area, blocks, *t, l, side, Corner::UpperRight);
                        lemma_area_ao(area, blocks, *t, l, side, Corner::UpperLeft);
                        assert(a00 == spec_corner_ao(blocks, *t, l, side, Corner::LowerLeft));
                        assert(a10 == spec_corner_ao(blocks, *t, l, side, Corner::LowerRight));
                        assert(a11 == spec_corner_ao(blocks, *t, l, side, Corner::UpperRight));
                        assert(a01 == spec_corner_ao(blocks, *t, l, side, Corner::UpperLeft));
                    }
                    let order = winding(a00, a10, a11, a01);
                    let ghost face = spec_face_seq(blocks, lightv, *t, l, side);
                    let mut ci: usize = 0;
                    while ci < 6
                        invariant
                            payload.wf(),
                            blocks == payload.blocks@,
                            lightv == payload.light@,
                            t.wf(),
                            l.wf(),
                            l.index() == vi,
                            vi < 4096,
                            ci <= 6,
                            block == blocks[l.index()],
                            tex == block.spec_index(),
                            light_here == lightv[l.index()],
                            a00 == spec_corner_ao(blocks, *t, l, side, Corner::LowerLeft),
                            a10 == spec_corner_ao(blocks, *t, l, side, Corner::LowerRight),
                            a11 == spec_corner_ao(blocks, *t, l, side, Corner::UpperRight),
                            a01 == spec_corner_ao(blocks, *t, l, side, Corner::UpperLeft),
                            a00 <= 3 && a10 <= 3 && a11 <= 3 && a01 <= 3,
                            order@ =~= spec_winding(
                                a00 as int,
                                a10 as int,
                                a11 as int,
                                a01 as int,
                            ),
                            face == spec_face_seq(blocks, lightv, *t, l, side),
                            out@ =~= out_before + face.subrange(0, ci as int),
                            forall|i: int| 0 <= i < out@.len() ==> (#[trigger] out@[i]).ao <= 3,
                        decreases 6 - ci,
                    {
                        let corner = order[ci];
                        let off = corner_vertex_offset(side, corner);
                        let ao = match corner {
                            Corner::LowerLeft => a00,
                            Corner::LowerRight => a10,
                            Corner::UpperRight => a11,
                            Corner::UpperLeft => a01,
                        };
                        let v = BlockVertex {
                            x: l.x + off.0,
                            y: l.y + off.1,
                            z: l.z + off.2,
                            tex,
                            face: side.face(),
                            ao,
                            light: light_here,
                        };
                        proof {
                            assert(order@[ci as int] == spec_winding(
                                a00 as int,
                                a10 as int,
                                a11 as int,
                                a01 as int,
                            )[ci as int]);
                            assert(v == spec_vertex(blocks, lightv, *t, l, side, corner));
                            assert(face[ci as int] == spec_vertex(
                                blocks,
                                lightv,
                                *t,
                                l,
                                side,
                                corner,
                            ));
                        }
                        out.push(v);
                        proof {
                            assert(out@ =~= out_before + face.subrange(0, ci + 1));
                        }
                        ci += 1;
                    }
                    proof {
                        assert(face.subrange(0, 6) =~= face);
                        assert(out@ =~= spec_chunk_seq_upto(blocks, lightv, *t, vi as int)
                            + spec_voxel_seq_upto(blocks, lightv, *t, l, si + 1)) by {
                            assert(spec_voxel_seq_upto(blocks, lightv, *t, l, si + 1)
                                =~= spec_voxel_seq_upto(blocks, lightv, *t, l, si as int) + face);
                        }
                    }
                } else {
                    proof {
                        assert(!spec_side_visible(blocks, *t, l, side)) by {
                            assert(side.spec_delta().within(1));
                        }
                        assert(spec_voxel_seq_upto(blocks, lightv, *t, l, si + 1)
                            =~= spec_voxel_seq_upto(blocks, lightv, *t, l, si as int));
                    }
                }
                si += 1;
            }
            proof {
                assert(out@ =~= spec_chunk_seq_upto(blocks, lightv, *t, vi + 1)) by {
                    assert(spec_chunk_seq_upto(blocks, lightv, *t, vi + 1) =~= spec_chunk_seq_upto(
                        blocks,
                        lightv,
                        *t,
                        vi as int,
                    ) + spec_voxel_seq_upto(blocks, lightv, *t, l, 6));
                }
            }
        } else {
            proof {
                lemma_voxel_air(blocks, lightv, *t, l, 6);
                assert(out@ =~= spec_chunk_seq_upto(blocks, lightv, *t, vi + 1)) by {
                    assert(spec_chunk_seq_upto(blocks, lightv, *t, vi + 1) =~= spec_chunk_seq_upto(
                        blocks,
                        lightv,
                        *t,
                        vi as int,
                    ) + spec_voxel_seq_upto(blocks, lightv, *t, l, 6));
                }
            }
        }
        vi += 1;
    }
    proof {
        assert(out@ =~= spec_chunk_vertices(blocks, lightv, *t));
    }
    out
}

} // verus!
