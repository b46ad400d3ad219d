//! The wire protocol: the tagged, self-delimiting binary records that carry
//! server and client events between processes. Encoding and decoding are
//! symmetric: decoding an encoded event always yields the event back,
//! independent of process or platform.

use crate::block::Block;
use crate::coords::{ChunkCoords, GlobalCoords};
use crate::wire::{
    lemma_i64_bytes_len, push_i64, push_u64, read_i64, read_u64, read_u8, spec_i64_bytes,
    spec_u64_bytes,
};
use vstd::prelude::*;

verus! {

/// One chunk's wire payload: its 4096 block tags and 4096 light values.
pub struct ChunkPayload {
    pub blocks: Vec<Block>,
    pub light: Vec<u8>,
}

impl ChunkPayload {
    pub open spec fn wf(self) -> bool {
        &&& self.blocks@.len() == 4096
        &&& self.light@.len() == 4096
    }

    /// Payload equality up to contents.
    pub open spec fn matches(self, other: ChunkPayload) -> bool {
        self.blocks@ == other.blocks@ && self.light@ == other.light@
    }
}

/// A record streamed from the server to the remote viewer.
pub enum ServerEvent {
    TimeUpdated { ticks: u64 },
    ChunkLoaded { coords: ChunkCoords, data: ChunkPayload, is_important: bool },
    ChunkUnloaded { coords: ChunkCoords },
    ChunkUpdated { coords: ChunkCoords, data: ChunkPayload, is_important: bool },
    BlockHovered { coords: Option<GlobalCoords> },
    ClientDisconnected,
}

/// A client intent streamed to the server. The viewer's orientation is
/// carried as the raw bit patterns of its two angles: the core never
/// interprets them, it hands them to the renderer's ray construction.
pub enum ClientEvent {
    InitialRenderRequested { position: GlobalCoords },
    PlayerPositionChanged { position: GlobalCoords },
    PlayerOrientationChanged { yaw_bits: u64, pitch_bits: u64 },
    BlockPlaced { block: Block },
    BlockDestroyed,
}

impl ServerEvent {
    pub open spec fn wf(self) -> bool {
        match self {
            ServerEvent::ChunkLoaded { data, .. } => data.wf(),
            ServerEvent::ChunkUpdated { data, .. } => data.wf(),
            _ => true,
        }
    }

    /// Event equality up to contents.
    pub open spec fn matches(self, other: ServerEvent) -> bool {
        match (self, other) {
            (
                ServerEvent::TimeUpdated { ticks: a },
                ServerEvent::TimeUpdated { ticks: b },
            ) => a == b,
            (
                ServerEvent::ChunkLoaded { coords: c1, data: d1, is_important: i1 },
                ServerEvent::ChunkLoaded { coords: c2, data: d2, is_important: i2 },
            ) => c1 == c2 && d1.matches(d2) && i1 == i2,
            (
                ServerEvent::ChunkUnloaded { coords: c1 },
                ServerEvent::ChunkUnloaded { coords: c2 },
            ) => c1 == c2,
            (
                ServerEvent::ChunkUpdated { coords: c1, data: d1, is_important: i1 },
                ServerEvent::ChunkUpdated { coords: c2, data: d2, is_important: i2 },
            ) => c1 == c2 && d1.matches(d2) && i1 == i2,
            (
                ServerEvent::BlockHovered { coords: a },
                ServerEvent::BlockHovered { coords: b },
            ) => a == b,
            (ServerEvent::ClientDisconnected, ServerEvent::ClientDisconnected) => true,
            _ => false,
        }
    }
}



/// The wire form of chunk coordinates.
pub open spec fn spec_chunk_coords_bytes(c: ChunkCoords) -> Seq<u8> {
    spec_i64_bytes(c.x as i64) + spec_i64_bytes(c.y as i64) + spec_i64_bytes(c.z as i64)
}

/// The wire form of world voxel coordinates.
pub open spec fn spec_global_coords_bytes(g: GlobalCoords) -> Seq<u8> {
    spec_i64_bytes(g.x) + spec_i64_bytes(g.y) + spec_i64_bytes(g.z)
}

/// Splitting a buffer region that holds a concatenation splits it at the
/// boundary.
pub proof fn lemma_split_bytes(s: Seq<u8>, pos: int, a: Seq<u8>, b: Seq<u8>)
    requires
        0 <= pos,
        pos + a.len() + b.len() <= s.len(),
        s.subrange(pos, pos + a.len() + b.len()) == a + b,
    ensures
        s.subrange(pos, pos + a.len()) == a,
        s.subrange(pos + a.len(), pos + a.len() + b.len()) == b,
{
    assert forall|k: int| 0 <= k < a.len() implies s.subrange(pos, pos + a.len())[k] == a[k] by {
        assert(s.subrange(pos, pos + a.len() + b.len())[k] == (a + b)[k]);
    }
    assert(s.subrange(pos, pos + a.len()) =~= a);
    assert forall|k: int| 0 <= k < b.len() implies s.subrange(
        pos + a.len(),
        pos + a.len() + b.len(),
    )[k] == b[k] by {
        assert(s.subrange(pos + a.len(), pos + a.len() + b.len())[k] == s[pos + a.len() + k]);
        assert(s.subrange(pos, pos + a.len() + b.len())[a.len() + k] == s[pos + a.len() + k]);
        assert(s.subrange(pos, pos + a.len() + b.len())[a.len() + k] == (a + b)[a.len() + k]);
        assert((a + b)[a.len() + k] == b[k]);
    }
    assert(s.subrange(pos + a.len(), pos + a.len() + b.len()) =~= b);
}

/// Appends the wire form of chunk coordinates.
pub fn push_chunk_coords(out: &mut Vec<u8>, c: ChunkCoords)
    ensures
        final(out)@ =~= old(out)@ + spec_chunk_coords_bytes(c),
{
    push_i64(out, c.x as i64);
    push_i64(out, c.y as i64);
    push_i64(out, c.z as i64);
}

/// Reads the wire form of chunk coordinates.
pub fn read_chunk_coords(buf: &Vec<u8>, pos: usize) -> (r: Option<(ChunkCoords, usize)>)
    ensures
        forall|c: ChunkCoords|
            pos + spec_chunk_coords_bytes(c).len() <= buf@.len() && buf@.subrange(
                pos as int,
                pos + spec_chunk_coords_bytes(c).len(),
            ) == spec_chunk_coords_bytes(c) ==> r == Some(
                (c, (pos + spec_chunk_coords_bytes(c).len()) as usize),
            ),
{
    let xp = match read_i64(buf, pos) {
        Some(v) => v,
        None => {
            proof {
                assert forall|q: ChunkCoords|
                    pos + spec_chunk_coords_bytes(q).len() <= buf@.len() && buf@.subrange(
                        pos as int,
                        pos + spec_chunk_coords_bytes(q).len(),
                    ) == spec_chunk_coords_bytes(q) implies false by {
                    vstd::std_specs::vec::axiom_spec_len(buf);
                    lemma_chunk_coords_fields(buf@, pos as int, q);
                    assert(buf@.subrange(
                        pos as int,
                        pos + spec_i64_bytes((q.x as i64)).len(),
                    ) == spec_i64_bytes((q.x as i64)));
                }
            }
            return None;
        }
    };
    let yp = match read_i64(buf, xp.1) {
        Some(v) => v,
        None => {
            proof {
                assert forall|q: ChunkCoords|
                    pos + spec_chunk_coords_bytes(q).len() <= buf@.len() && buf@.subrange(
                        pos as int,
                        pos + spec_chunk_coords_bytes(q).len(),
                    ) == spec_chunk_coords_bytes(q) implies false by {
                    vstd::std_specs::vec::axiom_spec_len(buf);
                    lemma_chunk_coords_fields(buf@, pos as int, q);
                    assert(buf@.subrange(
                        pos as int,
                        pos + spec_i64_bytes((q.x as i64)).len(),
                    ) == spec_i64_bytes((q.x as i64)));
                    assert(xp.1 == pos + 9);
                    assert(buf@.subrange(
                        xp.1 as int,
                        xp.1 + spec_i64_bytes((q.y as i64)).len(),
                    ) == spec_i64_bytes((q.y as i64)));
                }
            }
            return None;
        }
    };
    let zp = match read_i64(buf, yp.1) {
        Some(v) => v,
        None => {
            proof {
                assert forall|q: ChunkCoords|
                    pos + spec_chunk_coords_bytes(q).len() <= buf@.len() && buf@.subrange(
                        pos as int,
                        pos + spec_chunk_coords_bytes(q).len(),
                    ) == spec_chunk_coords_bytes(q) implies false by {
                    vstd::std_specs::vec::axiom_spec_len(buf);
                    lemma_chunk_coords_fields(buf@, pos as int, q);
                    assert(buf@.subrange(
                        pos as int,
                        pos + spec_i64_bytes((q.x as i64)).len(),
                    ) == spec_i64_bytes((q.x as i64)));
                    assert(xp.1 == pos + 9);
                    assert(buf@.subrange(
                        xp.1 as int,
                        xp.1 + spec_i64_bytes((q.y as i64)).len(),
                    ) == spec_i64_bytes((q.y as i64)));
                    assert(yp.1 == pos + 18);
                    assert(buf@.subrange(
                        yp.1 as int,
                        yp.1 + spec_i64_bytes((q.z as i64)).len(),
                    ) == spec_i64_bytes((q.z as i64)));
                }
            }
            return None;
        }
    };
    let x = xp.0;
    let y = yp.0;
    let z = zp.0;
    let r: Option<(ChunkCoords, usize)> = if i32::MIN as i64 <= x && x <= i32::MAX as i64
        && i32::MIN as i64 <= y && y <= i32::MAX as i64 && i32::MIN as i64 <= z && z
        <= i32::MAX as i64 {
        Some((ChunkCoords { x: x as i32, y: y as i32, z: z as i32 }, zp.1))
    } else {
        None
    };
    proof {
        assert forall|q: ChunkCoords|
            pos + spec_chunk_coords_bytes(q).len() <= buf@.len() && buf@.subrange(
                pos as int,
                pos + spec_chunk_coords_bytes(q).len(),
            ) == spec_chunk_coords_bytes(q) implies r == Some(
            (q, (pos + spec_chunk_coords_bytes(q).len()) as usize),
        ) by {
            vstd::std_specs::vec::axiom_spec_len(buf);
            lemma_chunk_coords_fields(buf@, pos as int, q);
            assert(buf@.subrange(
                pos as int,
                pos + spec_i64_bytes((q.x as i64)).len(),
            ) == spec_i64_bytes((q.x as i64)));
            assert(xp.1 == pos + 9);
            assert(buf@.subrange(
                xp.1 as int,
                xp.1 + spec_i64_bytes((q.y as i64)).len(),
            ) == spec_i64_bytes((q.y as i64)));
            assert(yp.1 == pos + 18);
            assert(buf@.subrange(
                yp.1 as int,
                yp.1 + spec_i64_bytes((q.z as i64)).len(),
            ) == spec_i64_bytes((q.z as i64)));
            assert(x == q.x as i64);
            assert(y == q.y as i64);
            assert(z == q.z as i64 && zp.1 == pos + 27);
        }
    }
    r
}

/// Appends the wire form of world voxel coordinates.
pub fn push_global_coords(out: &mut Vec<u8>, g: GlobalCoords)
    ensures
        final(out)@ =~= old(out)@ + spec_global_coords_bytes(g),
{
    push_i64(out, g.x);
    push_i64(out, g.y);
    push_i64(out, g.z);
}

/// The wire form of world coordinates is 27 bytes long, split 9/9/9.
pub proof fn lemma_global_coords_fields(s: Seq<u8>, pos: int, g: GlobalCoords)
    requires
        0 <= pos,
        pos + spec_global_coords_bytes(g).len() <= s.len(),
        s.subrange(pos, pos + spec_global_coords_bytes(g).len()) == spec_global_coords_bytes(g),
    ensures
        spec_global_coords_bytes(g).len() == 27,
        spec_i64_bytes(g.x).len() == 9,
        spec_i64_bytes(g.y).len() == 9,
        spec_i64_bytes(g.z).len() == 9,
        s.subrange(pos, pos + 9) == spec_i64_bytes(g.x),
        s.subrange(pos + 9, pos + 18) == spec_i64_bytes(g.y),
        s.subrange(pos + 18, pos + 27) == spec_i64_bytes(g.z),
{
    lemma_i64_bytes_len(g.x);
    lemma_i64_bytes_len(g.y);
    lemma_i64_bytes_len(g.z);
    let bx = spec_i64_bytes(g.x);
    let by_ = spec_i64_bytes(g.y);
    let bz = spec_i64_bytes(g.z);
    assert(spec_global_coords_bytes(g) =~= bx + (by_ + bz));
    assert(s.subrange(pos, pos + bx.len() + (by_ + bz).len()) == bx + (by_ + bz));
    lemma_split_bytes(s, pos, bx, by_ + bz);
    lemma_split_bytes(s, pos + 9, by_, bz);
}

/// Reads the wire form of world voxel coordinates.
pub fn read_global_coords(buf: &Vec<u8>, pos: usize) -> (r: Option<(GlobalCoords, usize)>)
    ensures
        forall|g: GlobalCoords|
            pos + spec_global_coords_bytes(g).len() <= buf@.len() && buf@.subrange(
                pos as int,
                pos + spec_global_coords_bytes(g).len(),
            ) == spec_global_coords_bytes(g) ==> r == Some(
                (g, (pos + spec_global_coords_bytes(g).len()) as usize),
            ),
{
    let xp = match read_i64(buf, pos) {
        Some(v) => v,
        None => {
            proof {
                assert forall|q: GlobalCoords|
                    pos + spec_global_coords_bytes(q).len() <= buf@.len() && buf@.subrange(
                        pos as int,
                        pos + spec_global_coords_bytes(q).len(),
                    ) == spec_global_coords_bytes(q) implies false by {
                    vstd::std_specs::vec::axiom_spec_len(buf);
                    lemma_global_coords_fields(buf@, pos as int, q);
                    assert(buf@.subrange(pos as int, pos + spec_i64_bytes(q.x).len())
                        == spec_i64_bytes(q.x));
                }
            }
            return None;
        }
    };
    let yp = match read_i64(buf, xp.1) {
        Some(v) => v,
        None => {
            proof {
                assert forall|q: GlobalCoords|
                    pos + spec_global_coords_bytes(q).len() <= buf@.len() && buf@.subrange(
                        pos as int,
                        pos + spec_global_coords_bytes(q).len(),
                    ) == spec_global_coords_bytes(q) implies false by {
                    vstd::std_specs::vec::axiom_spec_len(buf);
                    lemma_global_coords_fields(buf@, pos as int, q);
                    assert(buf@.subrange(pos as int, pos + spec_i64_bytes(q.x).len())
                        == spec_i64_bytes(q.x));
                    assert(xp.1 == pos + 9);
                    assert(buf@.subrange(xp.1 as int, xp.1 + spec_i64_bytes(q.y).len())
                        == spec_i64_bytes(q.y));
                }
            }
            return None;
        }
    };
    let zp = match read_i64(buf, yp.1) {
        Some(v) => v,
        None => {
            proof {
                assert forall|q: GlobalCoords|
                    pos + spec_global_coords_bytes(q).len() <= buf@.len() && buf@.subrange(
                        pos as int,
                        pos + spec_global_coords_bytes(q).len(),
                    ) == spec_global_coords_bytes(q) implies false by {
                    vstd::std_specs::vec::axiom_spec_len(buf);
                    lemma_global_coords_fields(buf@, pos as int, q);
                    assert(buf@.subrange(pos as int, pos + spec_i64_bytes(q.x).len())
                        == spec_i64_bytes(q.x));
                    assert(xp.1 == pos + 9);
                    assert(buf@.subrange(xp.1 as int, xp.1 + spec_i64_bytes(q.y).len())
                        == spec_i64_bytes(q.y));
                    assert(yp.1 == pos + 18);
                    assert(buf@.subrange(yp.1 as int, yp.1 + spec_i64_bytes(q.z).len())
                        == spec_i64_bytes(q.z));
                }
            }
            return None;
        }
    };
    let r: Option<(GlobalCoords, usize)> = Some(
        (GlobalCoords { x: xp.0, y: yp.0, z: zp.0 }, zp.1),
    );
    proof {
        assert forall|q: GlobalCoords|
            pos + spec_global_coords_bytes(q).len() <= buf@.len() && buf@.subrange(
                pos as int,
                pos + spec_global_coords_bytes(q).len(),
            ) == spec_global_coords_bytes(q) implies r == Some(
            (q, (pos + spec_global_coords_bytes(q).len()) as usize),
        ) by {
            vstd::std_specs::vec::axiom_spec_len(buf);
            lemma_global_coords_fields(buf@, pos as int, q);
            assert(buf@.subrange(pos as int, pos + spec_i64_bytes(q.x).len()) == spec_i64_bytes(
                q.x,
            ));
            assert(xp.1 == pos + 9);
            assert(buf@.subrange(xp.1 as int, xp.1 + spec_i64_bytes(q.y).len()) == spec_i64_bytes(
                q.y,
            ));
            assert(yp.1 == pos + 18);
            assert(buf@.subrange(yp.1 as int, yp.1 + spec_i64_bytes(q.z).len()) == spec_i64_bytes(
                q.z,
            ));
            assert(zp.1 == pos + 27);
        }
    }
    r
}

/// The wire form of a block grid: one tag byte per voxel.
pub open spec fn spec_blocks_bytes(s: Seq<Block>) -> Seq<u8> {
    Seq::new(s.len(), |i: int| s[i].spec_index() as u8)
}

/// The wire form of one chunk payload: 4096 block tags, then 4096 light
/// values.
pub open spec fn spec_payload_bytes(p: ChunkPayload) -> Seq<u8> {
    spec_blocks_bytes(p.blocks@) + p.light@
}

/// Appends the wire form of a chunk payload.
pub fn push_payload(out: &mut Vec<u8>, p: &ChunkPayload)
    requires
        p.wf(),
    ensures
        final(out)@ =~= old(out)@ + spec_payload_bytes(*p),
{
    let mut i: usize = 0;
    while i < 4096
        invariant
            p.wf(),
            i <= 4096,
            out@ =~= old(out)@ + spec_blocks_bytes(p.blocks@).subrange(0, i as int),
        decreases 4096 - i,
    {
        let ghost before = out@;
        out.push(p.blocks[i].index());
        proof {
            assert(out@ =~= old(out)@ + spec_blocks_bytes(p.blocks@).subrange(0, i + 1));
        }
        i += 1;
    }
    proof {
        assert(spec_blocks_bytes(p.blocks@).subrange(0, 4096) =~= spec_blocks_bytes(p.blocks@));
    }
    let mut j: usize = 0;
    while j < 4096
        invariant
            p.wf(),
            j <= 4096,
            out@ =~= old(out)@ + spec_blocks_bytes(p.blocks@) + p.light@.subrange(0, j as int),
        decreases 4096 - j,
    {
        out.push(p.light[j]);
        proof {
            assert(out@ =~= old(out)@ + spec_blocks_bytes(p.blocks@) + p.light@.subrange(
                0,
                j + 1,
            ));
        }
        j += 1;
    }
    proof {
        assert(p.light@.subrange(0, 4096) =~= p.light@);
        assert(old(out)@ + spec_blocks_bytes(p.blocks@) + p.light@ =~= old(out)@
            + spec_payload_bytes(*p));
    }
}

/// Reads the wire form of a chunk payload.
#[verifier::loop_isolation(false)]
pub fn read_payload(buf: &Vec<u8>, pos: usize) -> (r: Option<(ChunkPayload, usize)>)
    ensures
        forall|p: ChunkPayload|
            p.wf() && pos + 8192 <= buf@.len() && buf@.subrange(pos as int, pos + 8192)
                == spec_payload_bytes(p) ==> (r matches Some(q) && q.0.wf() && q.0.matches(p)
                && q.1 == pos + 8192),
{
    proof {
        vstd::std_specs::vec::axiom_spec_len(buf);
    }
    let mut blocks: Vec<Block> = Vec::new();
    let mut cur: usize = pos;
    let mut i: usize = 0;
    while i < 4096
        invariant
            i <= 4096,
            cur == pos + i,
            blocks@.len() == i,
            forall|j: int|
                0 <= j < i ==> (#[trigger] blocks@[j]).spec_index() == buf@[pos + j],
        decreases 4096 - i,
    {
        let b = match read_u8(buf, cur) {
            Some(v) => v,
            None => {
                proof {
                    assert forall|p: ChunkPayload|
                        p.wf() && pos + 8192 <= buf@.len() && buf@.subrange(pos as int, pos + 8192)
                            == spec_payload_bytes(p) implies false by {
                        assert(buf@.len() <= usize::MAX);
                    }
                }
                return None;
            }
        };
        let block = match Block::from_index(b.0) {
            Some(v) => v,
            None => {
                proof {
                    assert forall|p: ChunkPayload|
                        p.wf() && pos + 8192 <= buf@.len() && buf@.subrange(pos as int, pos + 8192)
                            == spec_payload_bytes(p) implies false by {
                        assert(buf@.subrange(pos as int, pos + 8192)[i as int]
                            == spec_payload_bytes(p)[i as int]);
                        assert(buf@[pos + i] == p.blocks@[i as int].spec_index());
                    }
                }
                return None;
            }
        };
        blocks.push(block);
        cur = b.1;
        i += 1;
    }
    let mut light: Vec<u8> = Vec::new();
    let mut j: usize = 0;
    while j < 4096
        invariant
            j <= 4096,
            cur == pos + 4096 + j,
            blocks@.len() == 4096,
            forall|k: int|
                0 <= k < 4096 ==> (#[trigger] blocks@[k]).spec_index() == buf@[pos + k],
            light@.len() == j,
            forall|k: int| 0 <= k < j ==> #[trigger] light@[k] == buf@[pos + 4096 + k],
        decreases 4096 - j,
    {
        let b = match read_u8(buf, cur) {
            Some(v) => v,
            None => {
                proof {
                    assert forall|p: ChunkPayload|
                        p.wf() && pos + 8192 <= buf@.len() && buf@.subrange(pos as int, pos + 8192)
                            == spec_payload_bytes(p) implies false by {
                        assert(buf@.len() <= usize::MAX);
                    }
                }
                return None;
            }
        };
        light.push(b.0);
        cur = b.1;
        j += 1;
    }
    let r = Some((ChunkPayload { blocks, light }, cur));
    proof {
        assert forall|p: ChunkPayload|
            p.wf() && pos + 8192 <= buf@.len() && buf@.subrange(pos as int, pos + 8192)
                == spec_payload_bytes(p) implies (r matches Some(q) && q.0.wf() && q.0.matches(
            p,
        ) && q.1 == pos + 8192) by {
            assert forall|k: int| 0 <= k < 4096 implies blocks@[k] == p.blocks@[k] by {
                assert(buf@.subrange(pos as int, pos + 8192)[k] == spec_payload_bytes(p)[k]);
                assert(buf@[pos + k] == p.blocks@[k].spec_index());
                Block::lemma_index_injective(blocks@[k], p.blocks@[k]);
            }
            assert(blocks@ =~= p.blocks@);
            assert forall|k: int| 0 <= k < 4096 implies light@[k] == p.light@[k] by {
                assert(buf@.subrange(pos as int, pos + 8192)[4096 + k] == spec_payload_bytes(
                    p,
                )[4096 + k]);
                assert(buf@[pos + 4096 + k] == p.light@[k]);
            }
            assert(light@ =~= p.light@);
        }
    }
    r
}

/// The byte carrying a flag.
pub open spec fn spec_bool_byte(b: bool) -> u8 {
    if b {
        1u8
    } else {
        0u8
    }
}

/// A tagged record's tag byte and body.
pub proof fn lemma_tagged(s: Seq<u8>, pos: int, tag: u8, rest: Seq<u8>)
    requires
        0 <= pos,
        pos + 1 + rest.len() <= s.len(),
        s.subrange(pos, pos + 1 + rest.len()) == seq![tag] + rest,
    ensures
        s[pos] == tag,
        s.subrange(pos + 1, pos + 1 + rest.len()) == rest,
{
    assert(s[pos] == (seq![tag] + rest)[0]);
    lemma_split_bytes(s, pos, seq![tag], rest);
}

/// The wire form of a server event: a tag byte, then the variant's payload.
pub open spec fn spec_server_event_bytes(e: ServerEvent) -> Seq<u8> {
    match e {
        ServerEvent::TimeUpdated { ticks } => seq![0u8] + spec_u64_bytes(ticks),
        ServerEvent::ChunkLoaded { coords, data, is_important } => seq![1u8]
            + spec_chunk_coords_bytes(coords) + spec_payload_bytes(data) + seq![
            spec_bool_byte(is_important),
        ],
        ServerEvent::ChunkUnloaded { coords } => seq![2u8] + spec_chunk_coords_bytes(coords),
        ServerEvent::ChunkUpdated { coords, data, is_important } => seq![3u8]
            + spec_chunk_coords_bytes(coords) + spec_payload_bytes(data) + seq![
            spec_bool_byte(is_important),
        ],
        ServerEvent::BlockHovered { coords } => match coords {
            None => seq![4u8, 0u8],
            Some(g) => seq![4u8, 1u8] + spec_global_coords_bytes(g),
        },
        ServerEvent::ClientDisconnected => seq![5u8],
    }
}

/// The wire form of a client event: a tag byte, then the variant's payload.
pub open spec fn spec_client_event_bytes(e: ClientEvent) -> Seq<u8> {
    match e {
        ClientEvent::InitialRenderRequested { position } => seq![0u8] + spec_global_coords_bytes(
            position,
        ),
        ClientEvent::PlayerPositionChanged { position } => seq![1u8] + spec_global_coords_bytes(
            position,
        ),
        ClientEvent::PlayerOrientationChanged { yaw_bits, pitch_bits } => seq![2u8]
            + spec_u64_bytes(yaw_bits) + spec_u64_bytes(pitch_bits),
        ClientEvent::BlockPlaced { block } => seq![3u8, block.spec_index() as u8],
        ClientEvent::BlockDestroyed => seq![4u8],
    }
}

/// Appends the wire record of a server event.
pub fn push_server_event(out: &mut Vec<u8>, e: &ServerEvent)
    requires
        e.wf(),
    ensures
        final(out)@ =~= old(out)@ + spec_server_event_bytes(*e),
{
    match e {
        ServerEvent::TimeUpdated { ticks } => {
            out.push(0u8);
            push_u64(out, *ticks);
            proof {
                assert(out@ =~= old(out)@ + spec_server_event_bytes(*e));
            }
        }
        ServerEvent::ChunkLoaded { coords, data, is_important } => {
            out.push(1u8);
            push_chunk_coords(out, *coords);
            push_payload(out, data);
            out.push(if *is_important {
                1u8
            } else {
                0u8
            });
            proof {
                assert(out@ =~= old(out)@ + spec_server_event_bytes(*e));
            }
        }
        ServerEvent::ChunkUnloaded { coords } => {
            out.push(2u8);
            push_chunk_coords(out, *coords);
            proof {
                assert(out@ =~= old(out)@ + spec_server_event_bytes(*e));
            }
        }
        ServerEvent::ChunkUpdated { coords, data, is_important } => {
            out.push(3u8);
            push_chunk_coords(out, *coords);
            push_payload(out, data);
            out.push(if *is_important {
                1u8
            } else {
                0u8
            });
            proof {
                assert(out@ =~= old(out)@ + spec_server_event_bytes(*e));
            }
        }
        ServerEvent::BlockHovered { coords } => {
            out.push(4u8);
            match coords {
                None => {
                    out.push(0u8);
                }
                Some(g) => {
                    out.push(1u8);
                    push_global_coords(out, *g);
                }
            }
            proof {
                assert(out@ =~= old(out)@ + spec_server_event_bytes(*e));
            }
        }
        ServerEvent::ClientDisconnected => {
            out.push(5u8);
            proof {
                assert(out@ =~= old(out)@ + spec_server_event_bytes(*e));
            }
        }
    }
}

/// Appends the wire record of a client event.
pub fn push_client_event(out: &mut Vec<u8>, e: &ClientEvent)
    ensures
        final(out)@ =~= old(out)@ + spec_client_event_bytes(*e),
{
    match e {
        ClientEvent::InitialRenderRequested { position } => {
            out.push(0u8);
            push_global_coords(out, *position);
            proof {
                assert(out@ =~= old(out)@ + spec_client_event_bytes(*e));
            }
        }
        ClientEvent::PlayerPositionChanged { position } => {
            out.push(1u8);
            push_global_coords(out, *position);
            proof {
                assert(out@ =~= old(out)@ + spec_client_event_bytes(*e));
            }
        }
        ClientEvent::PlayerOrientationChanged { yaw_bits, pitch_bits } => {
            out.push(2u8);
            push_u64(out, *yaw_bits);
            push_u64(out, *pitch_bits);
            proof {
                assert(out@ =~= old(out)@ + spec_client_event_bytes(*e));
            }
        }
        ClientEvent::BlockPlaced { block } => {
            out.push(3u8);
            out.push(block.index());
            proof {
                assert(out@ =~= old(out)@ + spec_client_event_bytes(*e));
            }
        }
        ClientEvent::BlockDestroyed => {
            out.push(4u8);
            proof {
                assert(out@ =~= old(out)@ + spec_client_event_bytes(*e));
            }
        }
    }
}

/// The tag byte of a server event's wire record.
pub open spec fn spec_server_tag(e: ServerEvent) -> u8 {
    match e {
        ServerEvent::TimeUpdated { .. } => 0u8,
        ServerEvent::ChunkLoaded { .. } => 1u8,
        ServerEvent::ChunkUnloaded { .. } => 2u8,
        ServerEvent::ChunkUpdated { .. } => 3u8,
        ServerEvent::BlockHovered { .. } => 4u8,
        ServerEvent::ClientDisconnected => 5u8,
    }
}

/// The tag byte of a client event's wire record.
pub open spec fn spec_client_tag(e: ClientEvent) -> u8 {
    match e {
        ClientEvent::InitialRenderRequested { .. } => 0u8,
        ClientEvent::PlayerPositionChanged { .. } => 1u8,
        ClientEvent::PlayerOrientationChanged { .. } => 2u8,
        ClientEvent::BlockPlaced { .. } => 3u8,
        ClientEvent::BlockDestroyed => 4u8,
    }
}

/// Where each field of a server event's wire record lies.
pub proof fn lemma_server_fields(s: Seq<u8>, pos: int, e: ServerEvent)
    requires
        e.wf(),
        0 <= pos,
        pos + spec_server_event_bytes(e).len() <= s.len(),
        s.subrange(pos, pos + spec_server_event_bytes(e).len()) == spec_server_event_bytes(e),
    ensures
        spec_server_event_bytes(e).len() >= 1,
        s[pos] == spec_server_tag(e),
        match e {
            ServerEvent::TimeUpdated { ticks } => spec_server_event_bytes(e).len() == 9
                && s.subrange(pos + 1, pos + 9) == spec_u64_bytes(ticks),
            ServerEvent::ChunkLoaded { coords, data, is_important } => spec_server_event_bytes(
                e,
            ).len() == 8221 && spec_chunk_coords_bytes(coords).len() == 27 && s.subrange(
                pos + 1,
                pos + 1 + spec_chunk_coords_bytes(coords).len(),
            ) == spec_chunk_coords_bytes(coords) && s.subrange(pos + 28, pos + 8220)
                == spec_payload_bytes(data) && s[pos + 8220] == spec_bool_byte(is_important),
            ServerEvent::ChunkUnloaded { coords } => spec_server_event_bytes(e).len() == 28
                && spec_chunk_coords_bytes(coords).len() == 27 && s.subrange(
                pos + 1,
                pos + 1 + spec_chunk_coords_bytes(coords).len(),
            ) == spec_chunk_coords_bytes(coords),
            ServerEvent::ChunkUpdated { coords, data, is_important } => spec_server_event_bytes(
                e,
            ).len() == 8221 && spec_chunk_coords_bytes(coords).len() == 27 && s.subrange(
                pos + 1,
                pos + 1 + spec_chunk_coords_bytes(coords).len(),
            ) == spec_chunk_coords_bytes(coords) && s.subrange(pos + 28, pos + 8220)
                == spec_payload_bytes(data) && s[pos + 8220] == spec_bool_byte(is_important),
            ServerEvent::BlockHovered { coords } => match coords {
                None => spec_server_event_bytes(e).len() == 2 && s[pos + 1] == 0u8,
                Some(g) => spec_server_event_bytes(e).len() == 29 && s[pos + 1] == 1u8
                    && spec_global_coords_bytes(g).len() == 27 && s.subrange(
                    pos + 2,
                    pos + 2 + spec_global_coords_bytes(g).len(),
                ) == spec_global_coords_bytes(g),
            },
            ServerEvent::ClientDisconnected => spec_server_event_bytes(e).len() == 1,
        },
{
    match e {
        ServerEvent::TimeUpdated { ticks } => {
            crate::wire::lemma_u64_bytes_len(ticks);
            lemma_tagged(s, pos, 0u8, spec_u64_bytes(ticks));
        }
        ServerEvent::ChunkLoaded { coords, data, is_important } => {
            lemma_coords_payload_flag(s, pos, 1u8, coords, data, is_important, e);
        }
        ServerEvent::ChunkUnloaded { coords } => {
            lemma_i64_bytes_len(coords.x as i64);
            lemma_i64_bytes_len(coords.y as i64);
            lemma_i64_bytes_len(coords.z as i64);
            lemma_tagged(s, pos, 2u8, spec_chunk_coords_bytes(coords));
        }
        ServerEvent::ChunkUpdated { coords, data, is_important } => {
            lemma_coords_payload_flag(s, pos, 3u8, coords, data, is_important, e);
        }
        ServerEvent::BlockHovered { coords } => {
            match coords {
                None => {
                    assert(spec_server_event_bytes(e) =~= seq![4u8] + seq![0u8]);
                    lemma_tagged(s, pos, 4u8, seq![0u8]);
                    assert(s[pos + 1] == seq![0u8][0]);
                }
                Some(g) => {
                    lemma_i64_bytes_len(g.x);
                    lemma_i64_bytes_len(g.y);
                    lemma_i64_bytes_len(g.z);
                    assert(spec_server_event_bytes(e) =~= seq![4u8] + (seq![1u8]
                        + spec_global_coords_bytes(g)));
                    lemma_tagged(s, pos, 4u8, seq![1u8] + spec_global_coords_bytes(g));
                    lemma_tagged(s, pos + 1, 1u8, spec_global_coords_bytes(g));
                }
            }
        }
        ServerEvent::ClientDisconnected => {
            assert(s[pos] == spec_server_event_bytes(e)[0]);
        }
    }
}

/// Field layout shared by the chunk-loaded and chunk-updated records: tag,
/// coordinates, payload, importance flag.
proof fn lemma_coords_payload_flag(
    s: Seq<u8>,
    pos: int,
    tag: u8,
    coords: ChunkCoords,
    data: ChunkPayload,
    is_important: bool,
    e: ServerEvent,
)
    requires
        data.wf(),
        0 <= pos,
        spec_server_event_bytes(e) == seq![tag] + spec_chunk_coords_bytes(coords)
            + spec_payload_bytes(data) + seq![spec_bool_byte(is_important)],
        pos + spec_server_event_bytes(e).len() <= s.len(),
        s.subrange(pos, pos + spec_server_event_bytes(e).len()) == spec_server_event_bytes(e),
    ensures
        spec_server_event_bytes(e).len() == 8221,
        spec_chunk_coords_bytes(coords).len() == 27,
        s[pos] == tag,
        s.subrange(pos + 1, pos + 1 + spec_chunk_coords_bytes(coords).len())
            == spec_chunk_coords_bytes(coords),
        s.subrange(pos + 28, pos + 8220) == spec_payload_bytes(data),
        s[pos + 8220] == spec_bool_byte(is_important),
{
    lemma_i64_bytes_len(coords.x as i64);
    lemma_i64_bytes_len(coords.y as i64);
    lemma_i64_bytes_len(coords.z as i64);
    let cc = spec_chunk_coords_bytes(coords);
    let pl = spec_payload_bytes(data);
    let fl = seq![spec_bool_byte(is_important)];
    assert(spec_server_event_bytes(e) =~= seq![tag] + (cc + (pl + fl)));
    lemma_tagged(s, pos, tag, cc + (pl + fl));
    lemma_split_bytes(s, pos + 1, cc, pl + fl);
    lemma_split_bytes(s, pos + 28, pl, fl);
    assert(s[pos + 8220] == s.subrange(pos + 8220, pos + 8221)[0]);
}

/// Reads one server-event wire record: decoding an encoded event yields the
/// event back, at the position just past its record.
#[verifier::rlimit(50)]
pub fn read_server_event(buf: &Vec<u8>, pos: usize) -> (r: Option<(ServerEvent, usize)>)
    ensures
        forall|e: ServerEvent|
            server_enc_at(buf@, pos as int, e) ==> (r matches Some(q) && q.0.wf() && q.0.matches(
                e,
            ) && q.1 == pos + spec_server_event_bytes(e).len()),
{
    proof {
        vstd::std_specs::vec::axiom_spec_len(buf);
    }
    let tag = match read_u8(buf, pos) {
        Some(v) => v,
        None => {
            proof {
                assert forall|e: ServerEvent|
                    server_enc_at(buf@, pos as int, e) implies false by {
                    lemma_server_fields(buf@, pos as int, e);
                }
            }
            return None;
        }
    };
    if tag.0 == 0 {
        let t = match read_u64(buf, tag.1) {
            Some(v) => v,
            None => {
                proof {
                    assert forall|e: ServerEvent|
                        server_enc_at(buf@, pos as int, e) implies false by {
                        lemma_server_fields(buf@, pos as int, e);
                    }
                }
                return None;
            }
        };
        let r = Some((ServerEvent::TimeUpdated { ticks: t.0 }, t.1));
        proof {
            assert forall|e: ServerEvent|
                server_enc_at(buf@, pos as int, e) implies (r matches Some(q) && q.0.wf()
                && q.0.matches(e) && q.1 == pos + spec_server_event_bytes(e).len()) by {
                lemma_server_fields(buf@, pos as int, e);
                match e {
                    ServerEvent::TimeUpdated { ticks } => {
                        crate::wire::lemma_u64_bytes_value(ticks, buf@, pos as int + 1);
                    }
                    _ => {
                        assert(spec_server_tag(e) != 0);
                    }
                }
            }
        }
        r
    } else if tag.0 == 1 || tag.0 == 3 {
        let cp = match read_chunk_coords(buf, tag.1) {
            Some(v) => v,
            None => {
                proof {
                    assert forall|e: ServerEvent|
                        server_enc_at(buf@, pos as int, e) implies false by {
                        lemma_server_fields(buf@, pos as int, e);
                        match e {
                            ServerEvent::ChunkLoaded { coords, data, is_important } => {
                                assert(tag.1 == pos + 1);
                                assert(buf@.subrange(
                                    tag.1 as int,
                                    tag.1 + spec_chunk_coords_bytes(coords).len(),
                                ) == spec_chunk_coords_bytes(coords));
                            }
                            ServerEvent::ChunkUpdated { coords, data, is_important } => {
                                assert(tag.1 == pos + 1);
                                assert(buf@.subrange(
                                    tag.1 as int,
                                    tag.1 + spec_chunk_coords_bytes(coords).len(),
                                ) == spec_chunk_coords_bytes(coords));
                            }
                            _ => {
                                assert(spec_server_tag(e) != 1 && spec_server_tag(e) != 3);
                            }
                        }
                    }
                }
                return None;
            }
        };
        let pp = match read_payload(buf, cp.1) {
            Some(v) => v,
            None => {
                proof {
                    assert forall|e: ServerEvent|
                        server_enc_at(buf@, pos as int, e) implies false by {
                        lemma_server_fields(buf@, pos as int, e);
                        match e {
                            ServerEvent::ChunkLoaded { coords, data, is_important } => {
                                assert(tag.1 == pos + 1);
                                assert(buf@.subrange(
                                    tag.1 as int,
                                    tag.1 + spec_chunk_coords_bytes(coords).len(),
                                ) == spec_chunk_coords_bytes(coords));
                                assert(cp.0 == coords && cp.1 == pos + 28);
                                assert(buf@.subrange(cp.1 as int, cp.1 + 8192)
                                    == spec_payload_bytes(data));
                            }
                            ServerEvent::ChunkUpdated { coords, data, is_important } => {
                                assert(tag.1 == pos + 1);
                                assert(buf@.subrange(
                                    tag.1 as int,
                                    tag.1 + spec_chunk_coords_bytes(coords).len(),
                                ) == spec_chunk_coords_bytes(coords));
                                assert(cp.0 == coords && cp.1 == pos + 28);
                                assert(buf@.subrange(cp.1 as int, cp.1 + 8192)
                                    == spec_payload_bytes(data));
                            }
                            _ => {
                                assert(spec_server_tag(e) != 1 && spec_server_tag(e) != 3);
                            }
                        }
                    }
                }
                return None;
            }
        };
        let fb = match read_u8(buf, pp.1) {
            Some(v) => v,
            None => {
                proof {
                    assert forall|e: ServerEvent|
                        server_enc_at(buf@, pos as int, e) implies false by {
                        lemma_server_fields(buf@, pos as int, e);
                        match e {
                            ServerEvent::ChunkLoaded { coords, data, is_important } => {
                                assert(tag.1 == pos + 1);
                                assert(buf@.subrange(
                                    tag.1 as int,
                                    tag.1 + spec_chunk_coords_bytes(coords).len(),
                                ) == spec_chunk_coords_bytes(coords));
                                assert(cp.0 == coords && cp.1 == pos + 28);
                                assert(buf@.subrange(cp.1 as int, cp.1 + 8192)
                                    == spec_payload_bytes(data));
                                assert(pp.0.matches(data) && pp.1 == pos + 8220);
                                assert(buf@[pp.1 as int] == spec_bool_byte(is_important));
                            }
                            ServerEvent::ChunkUpdated { coords, data, is_important } => {
                                assert(tag.1 == pos + 1);
                                assert(buf@.subrange(
                                    tag.1 as int,
                                    tag.1 + spec_chunk_coords_bytes(coords).len(),
                                ) == spec_chunk_coords_bytes(coords));
                                assert(cp.0 == coords && cp.1 == pos + 28);
                                assert(buf@.subrange(cp.1 as int, cp.1 + 8192)
                                    == spec_payload_bytes(data));
                                assert(pp.0.matches(data) && pp.1 == pos + 8220);
                                assert(buf@[pp.1 as int] == spec_bool_byte(is_important));
                            }
                            _ => {
                                assert(spec_server_tag(e) != 1 && spec_server_tag(e) != 3);
                            }
                        }
                    }
                }
                return None;
            }
        };
        if fb.0 > 1 {
            proof {
                assert forall|e: ServerEvent|
                    server_enc_at(buf@, pos as int, e) implies false by {
                        lemma_server_fields(buf@, pos as int, e);
                        match e {
                            ServerEvent::ChunkLoaded { coords, data, is_important } => {
                                assert(tag.1 == pos + 1);
                                assert(buf@.subrange(
                                    tag.1 as int,
                                    tag.1 + spec_chunk_coords_bytes(coords).len(),
                                ) == spec_chunk_coords_bytes(coords));
                                assert(cp.0 == coords && cp.1 == pos + 28);
                                assert(buf@.subrange(cp.1 as int, cp.1 + 8192)
                                    == spec_payload_bytes(data));
                                assert(pp.0.matches(data) && pp.1 == pos + 8220);
                                assert(buf@[pp.1 as int] == spec_bool_byte(is_important));
                                assert(fb.0 == spec_bool_byte(is_important) && fb.1 == pos + 8221);
                                assert(fb.0 == 1 <==> is_important);
                            }
                            ServerEvent::ChunkUpdated { coords, data, is_important } => {
                                assert(tag.1 == pos + 1);
                                assert(buf@.subrange(
                                    tag.1 as int,
                                    tag.1 + spec_chunk_coords_bytes(coords).len(),
                                ) == spec_chunk_coords_bytes(coords));
                                assert(cp.0 == coords && cp.1 == pos + 28);
                                assert(buf@.subrange(cp.1 as int, cp.1 + 8192)
                                    == spec_payload_bytes(data));
                                assert(pp.0.matches(data) && pp.1 == pos + 8220);
                                assert(buf@[pp.1 as int] == spec_bool_byte(is_important));
                                assert(fb.0 == spec_bool_byte(is_important) && fb.1 == pos + 8221);
                                assert(fb.0 == 1 <==> is_important);
                            }
                            _ => {
                                assert(spec_server_tag(e) != 1 && spec_server_tag(e) != 3);
                            }
                        }
                }
            }
            return None;
        }
        let ev = if tag.0 == 1 {
            ServerEvent::ChunkLoaded { coords: cp.0, data: pp.0, is_important: fb.0 == 1 }
        } else {
            ServerEvent::ChunkUpdated { coords: cp.0, data: pp.0, is_important: fb.0 == 1 }
        };
        let r = Some((ev, fb.1));
        proof {
            assert forall|e: ServerEvent|
                server_enc_at(buf@, pos as int, e) implies (r matches Some(q) && q.0.wf()
                && q.0.matches(e) && q.1 == pos + spec_server_event_bytes(e).len()) by {
                lemma_server_fields(buf@, pos as int, e);
                        match e {
                            ServerEvent::ChunkLoaded { coords, data, is_important } => {
                                assert(tag.1 == pos + 1);
                                assert(buf@.subrange(
                                    tag.1 as int,
                                    tag.1 + spec_chunk_coords_bytes(coords).len(),
                                ) == spec_chunk_coords_bytes(coords));
                                assert(cp.0 == coords && cp.1 == pos + 28);
                                assert(buf@.subrange(cp.1 as int, cp.1 + 8192)
                                    == spec_payload_bytes(data));
                                assert(pp.0.matches(data) && pp.1 == pos + 8220);
                                assert(buf@[pp.1 as int] == spec_bool_byte(is_important));
                                assert(fb.0 == spec_bool_byte(is_important) && fb.1 == pos + 8221);
                                assert(fb.0 == 1 <==> is_important);
                            }
                            ServerEvent::ChunkUpdated { coords, data, is_important } => {
                                assert(tag.1 == pos + 1);
                                assert(buf@.subrange(
                                    tag.1 as int,
                                    tag.1 + spec_chunk_coords_bytes(coords).len(),
                                ) == spec_chunk_coords_bytes(coords));
                                assert(cp.0 == coords && cp.1 == pos + 28);
                                assert(buf@.subrange(cp.1 as int, cp.1 + 8192)
                                    == spec_payload_bytes(data));
                                assert(pp.0.matches(data) && pp.1 == pos + 8220);
                                assert(buf@[pp.1 as int] == spec_bool_byte(is_important));
                                assert(fb.0 == spec_bool_byte(is_important) && fb.1 == pos + 8221);
                                assert(fb.0 == 1 <==> is_important);
                            }
                            _ => {
                                assert(spec_server_tag(e) != 1 && spec_server_tag(e) != 3);
                            }
                        }
            }
        }
        r
    } else if tag.0 == 2 {
        let cp = match read_chunk_coords(buf, tag.1) {
            Some(v) => v,
            None => {
                proof {
                    assert forall|e: ServerEvent|
                        server_enc_at(buf@, pos as int, e) implies false by {
                        lemma_server_fields(buf@, pos as int, e);
                        if e is ChunkUnloaded {
                            let c = e->ChunkUnloaded_coords;
                            assert(buf@.subrange(
                                pos + 1,
                                pos + 1 + spec_chunk_coords_bytes(c).len(),
                            ) == spec_chunk_coords_bytes(c));
                        } else {
                            assert(spec_server_tag(e) != 2);
                        }
                    }
                }
                return None;
            }
        };
        let r = Some((ServerEvent::ChunkUnloaded { coords: cp.0 }, cp.1));
        proof {
            assert forall|e: ServerEvent|
                server_enc_at(buf@, pos as int, e) implies (r matches Some(q) && q.0.wf()
                && q.0.matches(e) && q.1 == pos + spec_server_event_bytes(e).len()) by {
                lemma_server_fields(buf@, pos as int, e);
                if e is ChunkUnloaded {
                    let c = e->ChunkUnloaded_coords;
                    assert(buf@.subrange(pos + 1, pos + 1 + spec_chunk_coords_bytes(c).len())
                        == spec_chunk_coords_bytes(c));
                } else {
                    assert(spec_server_tag(e) != 2);
                }
            }
        }
        r
    } else if tag.0 == 4 {
        let ob = match read_u8(buf, tag.1) {
            Some(v) => v,
            None => {
                proof {
                    assert forall|e: ServerEvent|
                        server_enc_at(buf@, pos as int, e) implies false by {
                        lemma_server_fields(buf@, pos as int, e);
                    }
                }
                return None;
            }
        };
        if ob.0 == 0 {
            let r = Some((ServerEvent::BlockHovered { coords: None }, ob.1));
            proof {
                assert forall|e: ServerEvent|
                    server_enc_at(buf@, pos as int, e) implies (r matches Some(q) && q.0.wf()
                    && q.0.matches(e) && q.1 == pos + spec_server_event_bytes(e).len()) by {
                    lemma_server_fields(buf@, pos as int, e);
                    if !(e is BlockHovered) {
                        assert(spec_server_tag(e) != 4);
                    }
                }
            }
            r
        } else if ob.0 == 1 {
            let gp = match read_global_coords(buf, ob.1) {
                Some(v) => v,
                None => {
                    proof {
                        assert forall|e: ServerEvent|
                            server_enc_at(buf@, pos as int, e) implies false by {
                            lemma_server_fields(buf@, pos as int, e);
                            if e is BlockHovered && e->BlockHovered_coords is Some {
                                let g = e->BlockHovered_coords->Some_0;
                                assert(buf@.subrange(
                                    pos + 2,
                                    pos + 2 + spec_global_coords_bytes(g).len(),
                                ) == spec_global_coords_bytes(g));
                            }
                        }
                    }
                    return None;
                }
            };
            let r = Some((ServerEvent::BlockHovered { coords: Some(gp.0) }, gp.1));
            proof {
                assert forall|e: ServerEvent|
                    server_enc_at(buf@, pos as int, e) implies (r matches Some(q) && q.0.wf()
                    && q.0.matches(e) && q.1 == pos + spec_server_event_bytes(e).len()) by {
                    lemma_server_fields(buf@, pos as int, e);
                    if e is BlockHovered && e->BlockHovered_coords is Some {
                        let g = e->BlockHovered_coords->Some_0;
                        assert(buf@.subrange(
                            pos + 2,
                            pos + 2 + spec_global_coords_bytes(g).len(),
                        ) == spec_global_coords_bytes(g));
                    } else if !(e is BlockHovered) {
                        assert(spec_server_tag(e) != 4);
                    }
                }
            }
            r
        } else {
            proof {
                assert forall|e: ServerEvent|
                    server_enc_at(buf@, pos as int, e) implies false by {
                    lemma_server_fields(buf@, pos as int, e);
                }
            }
            None
        }
    } else if tag.0 == 5 {
        let r = Some((ServerEvent::ClientDisconnected, tag.1));
        proof {
            assert forall|e: ServerEvent|
                server_enc_at(buf@, pos as int, e) implies (r matches Some(q) && q.0.wf()
                && q.0.matches(e) && q.1 == pos + spec_server_event_bytes(e).len()) by {
                lemma_server_fields(buf@, pos as int, e);
                if !(e is ClientDisconnected) {
                    assert(spec_server_tag(e) != 5);
                }
            }
        }
        r
    } else {
        proof {
            assert forall|e: ServerEvent|
                server_enc_at(buf@, pos as int, e) implies false by {
                lemma_server_fields(buf@, pos as int, e);
            }
        }
        None
    }
}

/// Whether a server event's wire record stands at `pos`.
pub open spec fn server_enc_at(s: Seq<u8>, pos: int, e: ServerEvent) -> bool {
    &&& e.wf()
    &&& pos + spec_server_event_bytes(e).len() <= s.len()
    &&& s.subrange(pos, pos + spec_server_event_bytes(e).len()) == spec_server_event_bytes(e)
}

/// Whether a client event's wire record stands at `pos`.
pub open spec fn client_enc_at(s: Seq<u8>, pos: int, e: ClientEvent) -> bool {
    &&& pos + spec_client_event_bytes(e).len() <= s.len()
    &&& s.subrange(pos, pos + spec_client_event_bytes(e).len()) == spec_client_event_bytes(e)
}

/// Where each field of a client event's wire record lies.
pub proof fn lemma_client_fields(s: Seq<u8>, pos: int, e: ClientEvent)
    requires
        0 <= pos,
        pos + spec_client_event_bytes(e).len() <= s.len(),
        s.subrange(pos, pos + spec_client_event_bytes(e).len()) == spec_client_event_bytes(e),
    ensures
        spec_client_event_bytes(e).len() >= 1,
        s[pos] == spec_client_tag(e),
        match e {
            ClientEvent::InitialRenderRequested { position } => spec_client_event_bytes(e).len()
                == 28 && spec_global_coords_bytes(position).len() == 27 && s.subrange(
                pos + 1,
                pos + 1 + spec_global_coords_bytes(position).len(),
            ) == spec_global_coords_bytes(position),
            ClientEvent::PlayerPositionChanged { position } => spec_client_event_bytes(e).len()
                == 28 && spec_global_coords_bytes(position).len() == 27 && s.subrange(
                pos + 1,
                pos + 1 + spec_global_coords_bytes(position).len(),
            ) == spec_global_coords_bytes(position),
            ClientEvent::PlayerOrientationChanged { yaw_bits, pitch_bits } =>
                spec_client_event_bytes(e).len() == 17 && s.subrange(pos + 1, pos + 9)
                == spec_u64_bytes(yaw_bits) && s.subrange(pos + 9, pos + 17) == spec_u64_bytes(
                pitch_bits,
            ),
            ClientEvent::BlockPlaced { block } => spec_client_event_bytes(e).len() == 2 && s[pos
                + 1] == block.spec_index(),
            ClientEvent::BlockDestroyed => spec_client_event_bytes(e).len() == 1,
        },
{
    match e {
        ClientEvent::InitialRenderRequested { position } => {
            lemma_i64_bytes_len(position.x);
            lemma_i64_bytes_len(position.y);
            lemma_i64_bytes_len(position.z);
            lemma_tagged(s, pos, 0u8, spec_global_coords_bytes(position));
        }
        ClientEvent::PlayerPositionChanged { position } => {
            lemma_i64_bytes_len(position.x);
            lemma_i64_bytes_len(position.y);
            lemma_i64_bytes_len(position.z);
            lemma_tagged(s, pos, 1u8, spec_global_coords_bytes(position));
        }
        ClientEvent::PlayerOrientationChanged { yaw_bits, pitch_bits } => {
            crate::wire::lemma_u64_bytes_len(yaw_bits);
            crate::wire::lemma_u64_bytes_len(pitch_bits);
            assert(spec_client_event_bytes(e) =~= seq![2u8] + (spec_u64_bytes(yaw_bits)
                + spec_u64_bytes(pitch_bits)));
            lemma_tagged(s, pos, 2u8, spec_u64_bytes(yaw_bits) + spec_u64_bytes(pitch_bits));
            lemma_split_bytes(s, pos + 1, spec_u64_bytes(yaw_bits), spec_u64_bytes(pitch_bits));
        }
        ClientEvent::BlockPlaced { block } => {
            assert(spec_client_event_bytes(e) =~= seq![3u8] + seq![block.spec_index() as u8]);
            lemma_tagged(s, pos, 3u8, seq![block.spec_index() as u8]);
            assert(s[pos + 1] == seq![block.spec_index() as u8][0]);
        }
        ClientEvent::BlockDestroyed => {
            assert(s[pos] == spec_client_event_bytes(e)[0]);
        }
    }
}

/// Reads one client-event wire record: decoding an encoded event yields the
/// event back, at the position just past its record.
#[verifier::rlimit(50)]
pub fn read_client_event(buf: &Vec<u8>, pos: usize) -> (r: Option<(ClientEvent, usize)>)
    ensures
        forall|e: ClientEvent|
            client_enc_at(buf@, pos as int, e) ==> (r matches Some(q) && q.0 == e && q.1 == pos
                + spec_client_event_bytes(e).len()),
{
    proof {
        vstd::std_specs::vec::axiom_spec_len(buf);
    }
    let tag = match read_u8(buf, pos) {
        Some(v) => v,
        None => {
            proof {
                assert forall|e: ClientEvent|
                    client_enc_at(buf@, pos as int, e) implies false by {
                    lemma_client_fields(buf@, pos as int, e);
                }
            }
            return None;
        }
    };
    if tag.0 == 0 || tag.0 == 1 {
        let gp = match read_global_coords(buf, tag.1) {
            Some(v) => v,
            None => {
                proof {
                    assert forall|e: ClientEvent|
                        client_enc_at(buf@, pos as int, e) implies false by {
                        lemma_client_fields(buf@, pos as int, e);
                        match e {
                            ClientEvent::InitialRenderRequested { position } => {
                                assert(buf@.subrange(
                                    tag.1 as int,
                                    tag.1 + spec_global_coords_bytes(position).len(),
                                ) == spec_global_coords_bytes(position));
                            }
                            ClientEvent::PlayerPositionChanged { position } => {
                                assert(buf@.subrange(
                                    tag.1 as int,
                                    tag.1 + spec_global_coords_bytes(position).len(),
                                ) == spec_global_coords_bytes(position));
                            }
                            _ => {
                                assert(spec_client_tag(e) != 0 && spec_client_tag(e) != 1);
                            }
                        }
                    }
                }
                return None;
            }
        };
        let ev = if tag.0 == 0 {
            ClientEvent::InitialRenderRequested { position: gp.0 }
        } else {
            ClientEvent::PlayerPositionChanged { position: gp.0 }
        };
        let r = Some((ev, gp.1));
        proof {
            assert forall|e: ClientEvent|
                client_enc_at(buf@, pos as int, e) implies (r matches Some(q) && q.0 == e && q.1
                == pos + spec_client_event_bytes(e).len()) by {
                lemma_client_fields(buf@, pos as int, e);
                match e {
                    ClientEvent::InitialRenderRequested { position } => {
                        assert(buf@.subrange(
                            tag.1 as int,
                            tag.1 + spec_global_coords_bytes(position).len(),
                        ) == spec_global_coords_bytes(position));
                    }
                    ClientEvent::PlayerPositionChanged { position } => {
                        assert(buf@.subrange(
                            tag.1 as int,
                            tag.1 + spec_global_coords_bytes(position).len(),
                        ) == spec_global_coords_bytes(position));
                    }
                    _ => {
                        assert(spec_client_tag(e) != 0 && spec_client_tag(e) != 1);
                    }
                }
            }
        }
        r
    } else if tag.0 == 2 {
        let yb = match read_u64(buf, tag.1) {
            Some(v) => v,
            None => {
                proof {
                    assert forall|e: ClientEvent|
                        client_enc_at(buf@, pos as int, e) implies false by {
                        lemma_client_fields(buf@, pos as int, e);
                    }
                }
                return None;
            }
        };
        let pb = match read_u64(buf, yb.1) {
            Some(v) => v,
            None => {
                proof {
                    assert forall|e: ClientEvent|
                        client_enc_at(buf@, pos as int, e) implies false by {
                        lemma_client_fields(buf@, pos as int, e);
                    }
                }
                return None;
            }
        };
        let r = Some(
            (ClientEvent::PlayerOrientationChanged { yaw_bits: yb.0, pitch_bits: pb.0 }, pb.1),
        );
        proof {
            assert forall|e: ClientEvent|
                client_enc_at(buf@, pos as int, e) implies (r matches Some(q) && q.0 == e && q.1
                == pos + spec_client_event_bytes(e).len()) by {
                lemma_client_fields(buf@, pos as int, e);
                match e {
                    ClientEvent::PlayerOrientationChanged { yaw_bits, pitch_bits } => {
                        crate::wire::lemma_u64_bytes_value(yaw_bits, buf@, pos as int + 1);
                        crate::wire::lemma_u64_bytes_value(pitch_bits, buf@, pos as int + 9);
                    }
                    _ => {
                        assert(spec_client_tag(e) != 2);
                    }
                }
            }
        }
        r
    } else if tag.0 == 3 {
        let bb = match read_u8(buf, tag.1) {
            Some(v) => v,
            None => {
                proof {
                    assert forall|e: ClientEvent|
                        client_enc_at(buf@, pos as int, e) implies false by {
                        lemma_client_fields(buf@, pos as int, e);
                    }
                }
                return None;
            }
        };
        let block = match Block::from_index(bb.0) {
            Some(v) => v,
            None => {
                proof {
                    assert forall|e: ClientEvent|
                        client_enc_at(buf@, pos as int, e) implies false by {
                        lemma_client_fields(buf@, pos as int, e);
                    }
                }
                return None;
            }
        };
        let r = Some((ClientEvent::BlockPlaced { block }, bb.1));
        proof {
            assert forall|e: ClientEvent|
                client_enc_at(buf@, pos as int, e) implies (r matches Some(q) && q.0 == e && q.1
                == pos + spec_client_event_bytes(e).len()) by {
                lemma_client_fields(buf@, pos as int, e);
                match e {
                    ClientEvent::BlockPlaced { block: b2 } => {
                        Block::lemma_index_injective(block, b2);
                    }
                    _ => {
                        assert(spec_client_tag(e) != 3);
                    }
                }
            }
        }
        r
    } else if tag.0 == 4 {
        let r = Some((ClientEvent::BlockDestroyed, tag.1));
        proof {
            assert forall|e: ClientEvent|
                client_enc_at(buf@, pos as int, e) implies (r matches Some(q) && q.0 == e && q.1
                == pos + spec_client_event_bytes(e).len()) by {
                lemma_client_fields(buf@, pos as int, e);
                if !(e is BlockDestroyed) {
                    assert(spec_client_tag(e) != 4);
                }
            }
        }
        r
    } else {
        proof {
            assert forall|e: ClientEvent| client_enc_at(buf@, pos as int, e) implies false by {
                lemma_client_fields(buf@, pos as int, e);
            }
        }
        None
    }
}

/// The wire form of three signed values is 27 bytes long, split 9/9/9.
pub proof fn lemma_chunk_coords_fields(s: Seq<u8>, pos: int, c: ChunkCoords)
    requires
        0 <= pos,
        pos + spec_chunk_coords_bytes(c).len() <= s.len(),
        s.subrange(pos, pos + spec_chunk_coords_bytes(c).len()) == spec_chunk_coords_bytes(c),
    ensures
        spec_chunk_coords_bytes(c).len() == 27,
        spec_i64_bytes(c.x as i64).len() == 9,
        spec_i64_bytes(c.y as i64).len() == 9,
        spec_i64_bytes(c.z as i64).len() == 9,
        s.subrange(pos, pos + 9) == spec_i64_bytes(c.x as i64),
        s.subrange(pos + 9, pos + 18) == spec_i64_bytes(c.y as i64),
        s.subrange(pos + 18, pos + 27) == spec_i64_bytes(c.z as i64),
{
    lemma_i64_bytes_len(c.x as i64);
    lemma_i64_bytes_len(c.y as i64);
    lemma_i64_bytes_len(c.z as i64);
    let bx = spec_i64_bytes(c.x as i64);
    let by_ = spec_i64_bytes(c.y as i64);
    let bz = spec_i64_bytes(c.z as i64);
    assert(spec_chunk_coords_bytes(c) =~= bx + (by_ + bz));
    assert(s.subrange(pos, pos + bx.len() + (by_ + bz).len()) == bx + (by_ + bz));
    lemma_split_bytes(s, pos, bx, by_ + bz);
    lemma_split_bytes(s, pos + 9, by_, bz);
}

} // verus!
