//! The client's overlay state, reduced to what the core decides: which block
//! of the inventory the player has selected for placement. Drawing the
//! crosshair and the inventory is the renderer's business, outside this
//! crate; their sizes live in the configuration.

use crate::block::Block;
use vstd::prelude::*;

verus! {

/// Scale of the crosshair overlay, in whole pixels.
#[derive(Clone, Copy, PartialEq, Eq, Structural, Debug)]
pub struct CrosshairConfig {
    pub size: u32,
}

/// Scale of the inventory overlay, in whole pixels.
#[derive(Clone, Copy, PartialEq, Eq, Structural, Debug)]
pub struct InventoryConfig {
    pub slot_size: u32,
}

/// The overlay configuration, built once at startup.
#[derive(Clone, Copy, PartialEq, Eq, Structural, Debug)]
pub struct GuiConfig {
    pub crosshair: CrosshairConfig,
    pub inventory: InventoryConfig,
}

/// The placeable blocks and which of them is selected.
pub struct Inventory {
    pub slots: Vec<Block>,
    pub selected: usize,
}

impl Inventory {
    /// The selection always points at a slot.
    pub open spec fn wf(self) -> bool {
        self.slots@.len() > 0 && self.selected < self.slots@.len()
    }

    /// The default hotbar: every placeable block type, the first selected.
    pub fn new() -> (r: Inventory)
        ensures
            r.wf(),
            r.selected == 0,
            r.slots@ =~= seq![Block::Sand, Block::Glowstone, Block::GlassMagenta, Block::GlassCyan],
    {
        let mut slots: Vec<Block> = Vec::new();
        slots.push(Block::Sand);
        slots.push(Block::Glowstone);
        slots.push(Block::GlassMagenta);
        slots.push(Block::GlassCyan);
        Inventory { slots, selected: 0 }
    }

    /// Selects slot `i`; an out-of-range selection is ignored.
    pub fn select(&mut self, i: usize)
        requires
            old(self).wf(),
        ensures
            final(self).wf(),
            final(self).slots == old(self).slots,
            final(self).selected == if i < old(self).slots@.len() {
                i
            } else {
                old(self).selected
            },
    {
        if i < self.slots.len() {
            self.selected = i;
        }
    }

    /// The block the player would place.
    pub fn selected_block(&self) -> (r: Block)
        requires
            self.wf(),
        ensures
            r == self.slots@[self.selected as int],
    {
        self.slots[self.selected]
    }
}

/// The client's overlay state: the inventory the placement intent reads.
pub struct Gui {
    pub inventory: Inventory,
}

impl Gui {
    pub open spec fn wf(self) -> bool {
        self.inventory.wf()
    }

    pub fn new() -> (r: Gui)
        ensures
            r.wf(),
    {
        Gui { inventory: Inventory::new() }
    }
}

} // verus!
