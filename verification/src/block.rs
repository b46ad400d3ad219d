//! Per-voxel block types and their static properties: opacity, light
//! emission, placement-surface rules, and how an edit action changes one
//! voxel.

use vstd::prelude::*;

verus! {

/// Highest light level a voxel can carry or emit, per channel.
pub const MAX_LIGHT: u8 = 15;

/// One voxel's type.
#[derive(Clone, Copy, PartialEq, Eq, Structural, Debug)]
pub enum Block {
    Air,
    Sand,
    Glowstone,
    GlassMagenta,
    GlassCyan,
}

/// How many block types there are.
pub const BLOCK_COUNT: u8 = 5;

impl Block {
    /// Dense index of this block type, below [`BLOCK_COUNT`].
    pub open spec fn spec_index(self) -> int {
        match self {
            Block::Air => 0,
            Block::Sand => 1,
            Block::Glowstone => 2,
            Block::GlassMagenta => 3,
            Block::GlassCyan => 4,
        }
    }

    pub fn index(self) -> (r: u8)
        ensures
            r == self.spec_index(),
            r < BLOCK_COUNT,
    {
        match self {
            Block::Air => 0,
            Block::Sand => 1,
            Block::Glowstone => 2,
            Block::GlassMagenta => 3,
            Block::GlassCyan => 4,
        }
    }

    /// The block type at a dense index, inverse of [`Block::index`].
    pub fn from_index(i: u8) -> (r: Option<Block>)
        ensures
            i < BLOCK_COUNT <==> r is Some,
            r matches Some(b) ==> b.spec_index() == i,
    {
        match i {
            0 => Some(Block::Air),
            1 => Some(Block::Sand),
            2 => Some(Block::Glowstone),
            3 => Some(Block::GlassMagenta),
            4 => Some(Block::GlassCyan),
            _ => None,
        }
    }

    /// Two block types with one dense index are one type.
    pub proof fn lemma_index_injective(a: Block, b: Block)
        requires
            a.spec_index() == b.spec_index(),
        ensures
            a == b,
    {
    }

    /// Result of applying `action` to a voxel unconditionally: a placement
    /// writes its block, a destruction writes air.
    pub open spec fn spec_apply_unchecked(action: BlockAction) -> Block {
        match action {
            BlockAction::Place(b) => b,
            BlockAction::Destroy => Block::Air,
        }
    }

    /// Whether `action` may change a voxel currently holding `self`: a
    /// placement needs the voxel empty and a non-air block, a destruction
    /// needs it occupied.
    pub open spec fn spec_action_applies(self, action: BlockAction) -> bool {
        match action {
            BlockAction::Place(b) => self == Block::Air && b != Block::Air,
            BlockAction::Destroy => self != Block::Air,
        }
    }

    /// Applies `action` to this voxel if it applies, and reports whether it
    /// did.
    pub fn apply(&mut self, action: &BlockAction) -> (r: bool)
        ensures
            r == old(self).spec_action_applies(*action),
            *final(self) == if r {
                Block::spec_apply_unchecked(*action)
            } else {
                *old(self)
            },
    {
        match action {
            BlockAction::Place(block) => self.place(*block),
            BlockAction::Destroy => self.destroy(),
        }
    }

    /// Applies `action` to this voxel unconditionally.
    pub fn apply_unchecked(&mut self, action: &BlockAction)
        ensures
            *final(self) == Block::spec_apply_unchecked(*action),
    {
        match action {
            BlockAction::Place(block) => {
                *self = *block;
            }
            BlockAction::Destroy => {
                *self = Block::Air;
            }
        }
    }

    fn place(&mut self, block: Block) -> (r: bool)
        ensures
            r == old(self).spec_action_applies(BlockAction::Place(block)),
            *final(self) == if r {
                block
            } else {
                *old(self)
            },
    {
        if *self == Block::Air && block != Block::Air {
            *self = block;
            true
        } else {
            false
        }
    }

    fn destroy(&mut self) -> (r: bool)
        ensures
            r == old(self).spec_action_applies(BlockAction::Destroy),
            *final(self) == if r {
                Block::Air
            } else {
                *old(self)
            },
    {
        if *self != Block::Air {
            *self = Block::Air;
            true
        } else {
            false
        }
    }
}

/// One edit to one voxel: place a block into an empty voxel, or destroy the
/// block standing there.
#[derive(Clone, Copy, PartialEq, Eq, Structural, Debug)]
pub enum BlockAction {
    Place(Block),
    Destroy,
}

/// Static properties of one block type.
#[derive(Clone, Copy, PartialEq, Eq, Structural, Debug)]
pub struct BlockData {
    /// Whether the block stops light and hides the faces behind it.
    pub is_opaque: bool,
    /// Light the block emits, in `[0, MAX_LIGHT]`.
    pub luminance: u8,
    /// Surface the block must stand on, if it needs one: placement then
    /// demands that the voxel beneath holds this block, and destroying that
    /// support destroys this block too.
    pub valid_surface: Option<Block>,
    /// Whether faces of this block take per-corner ambient occlusion.
    pub smooth_lighting: bool,
}

impl BlockData {
    pub open spec fn wf(self) -> bool {
        self.luminance <= MAX_LIGHT
    }

    pub open spec fn spec_is_glowing(self) -> bool {
        self.luminance > 0
    }

    pub fn is_glowing(&self) -> (r: bool)
        ensures
            r == self.spec_is_glowing(),
    {
        self.luminance > 0
    }
}

/// The immutable property table of all block types, built once at startup
/// and passed by reference wherever block properties are read.
pub struct BlockTable {
    pub entries: Vec<BlockData>,
}

impl BlockTable {
    /// A table is well formed when it has one entry per block type and air
    /// is immaterial: transparent, dark, freestanding.
    pub open spec fn wf(self) -> bool {
        &&& self.entries@.len() == BLOCK_COUNT
        &&& forall|i: int| 0 <= i < BLOCK_COUNT ==> #[trigger] self.entries@[i].wf()
        &&& self.entries@[0] == (BlockData {
            is_opaque: false,
            luminance: 0,
            valid_surface: None,
            smooth_lighting: false,
        })
    }

    /// Properties of block `b` in this table.
    pub open spec fn spec_data(self, b: Block) -> BlockData {
        self.entries@[b.spec_index()]
    }

    /// The default game data: sand and glowstone are opaque, glowstone
    /// glows at full strength, glass is transparent and must stand on sand.
    pub fn new() -> (r: BlockTable)
        ensures
            r.wf(),
            !r.spec_data(Block::Sand).spec_is_glowing(),
            r.spec_data(Block::Sand).is_opaque,
            r.spec_data(Block::Sand).valid_surface is None,
            r.spec_data(Block::Glowstone).luminance == MAX_LIGHT,
            r.spec_data(Block::Glowstone).is_opaque,
            r.spec_data(Block::Glowstone).valid_surface is None,
            !r.spec_data(Block::GlassMagenta).is_opaque,
            r.spec_data(Block::GlassMagenta).valid_surface == Some(Block::Sand),
            !r.spec_data(Block::GlassCyan).is_opaque,
            r.spec_data(Block::GlassCyan).valid_surface == Some(Block::Sand),
    {
        let mut entries: Vec<BlockData> = Vec::new();
        entries.push(
            BlockData { is_opaque: false, luminance: 0, valid_surface: None, smooth_lighting: false },
        );
        entries.push(
            BlockData { is_opaque: true, luminance: 0, valid_surface: None, smooth_lighting: true },
        );
        entries.push(
            BlockData {
                is_opaque: true,
                luminance: MAX_LIGHT,
                valid_surface: None,
                smooth_lighting: false,
            },
        );
        entries.push(
            BlockData {
                is_opaque: false,
                luminance: 0,
                valid_surface: Some(Block::Sand),
                smooth_lighting: false,
            },
        );
        entries.push(
            BlockData {
                is_opaque: false,
                luminance: 0,
                valid_surface: Some(Block::Sand),
                smooth_lighting: false,
            },
        );
        BlockTable { entries }
    }

    /// A table with the given entries, for worlds with other block rules;
    /// rejects tables whose air entry is material or whose light levels are
    /// out of range.
    pub fn from_entries(entries: Vec<BlockData>) -> (r: Option<BlockTable>)
        ensures
            r matches Some(t) ==> t.wf() && t.entries@ == entries@,
            r is None ==> !(BlockTable { entries }).wf(),
    {
        if entries.len() != BLOCK_COUNT as usize {
            return None;
        }
        let air = BlockData { is_opaque: false, luminance: 0, valid_surface: None, smooth_lighting: false };
        if !(entries[0] == air) {
            return None;
        }
        let mut i: usize = 0;
        while i < entries.len()
            invariant
                i <= entries@.len(),
                entries@.len() == BLOCK_COUNT,
                forall|j: int| 0 <= j < i ==> #[trigger] entries@[j].wf(),
            decreases entries@.len() - i,
        {
            if entries[i].luminance > MAX_LIGHT {
                proof {
                    assert(!entries@[i as int].wf());
                }
                return None;
            }
            i += 1;
        }
        Some(BlockTable { entries })
    }

    /// Properties of block `b`.
    pub fn data(&self, b: Block) -> (r: &BlockData)
        requires
            self.wf(),
        ensures
            *r == self.spec_data(b),
            r.wf(),
    {
        &self.entries[b.index() as usize]
    }
}

} // verus!
