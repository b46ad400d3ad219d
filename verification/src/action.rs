//! The append-only edit log: one action per edited voxel, keyed by chunk and
//! then by local coordinates, with last write winning per voxel. Replaying a
//! chunk's log onto a freshly generated chunk reproduces its edited state.

use crate::block::{Block, BlockAction};
use crate::coord_map::CoordMap;
use crate::coords::{ChunkCoords, GlobalCoords, LocalCoords};
use crate::coords::{chunk_coords, local_coords, spec_chunk_coords, spec_local_coords};
use vstd::arithmetic::div_mod::{lemma_fundamental_div_mod, lemma_mod_bound};
use vstd::pervasive::VecAdditionalExecFns;
use vstd::prelude::*;

verus! {

/// Every dense voxel index is the index of a well-formed local coordinate.
pub proof fn lemma_index_surjective(i: int)
    requires
        0 <= i < 4096,
    ensures
        exists|l: LocalCoords| l.wf() && #[trigger] l.index() == i,
{
    lemma_fundamental_div_mod(i, 256);
    lemma_mod_bound(i, 256);
    let r = i % 256;
    lemma_fundamental_div_mod(r, 16);
    lemma_mod_bound(r, 16);
    let l = LocalCoords { x: (i / 256) as u8, y: (r / 16) as u8, z: (r % 16) as u8 };
    assert(l.wf() && l.index() == i);
}

/// An all-air chunk's contents.
pub open spec fn all_air() -> Seq<Block> {
    Seq::new(4096, |i: int| Block::Air)
}

/// The blocks of a chunk after replaying the logged actions `m` onto the
/// generated contents `base`: each logged voxel holds its action's outcome,
/// every other voxel keeps its generated block. One action is logged per
/// voxel, so replay order cannot matter.
pub open spec fn spec_replayed(base: Seq<Block>, m: Map<LocalCoords, BlockAction>) -> Seq<Block> {
    Seq::new(
        base.len(),
        |i: int|
            if exists|l: LocalCoords| l.wf() && #[trigger] l.index() == i && m.dom().contains(l) {
                let l = choose|l: LocalCoords|
                    l.wf() && #[trigger] l.index() == i && m.dom().contains(l);
                Block::spec_apply_unchecked(m[l])
            } else {
                base[i]
            },
    )
}

/// Replay, read at one voxel.
pub proof fn lemma_replayed_at(base: Seq<Block>, m: Map<LocalCoords, BlockAction>, l: LocalCoords)
    requires
        l.wf(),
        l.index() < base.len(),
    ensures
        spec_replayed(base, m)[l.index()] == if m.dom().contains(l) {
            Block::spec_apply_unchecked(m[l])
        } else {
            base[l.index()]
        },
{
    let i = l.index();
    if m.dom().contains(l) {
        assert(l.wf() && l.index() == i && m.dom().contains(l));
        let l2 = choose|l2: LocalCoords| l2.wf() && #[trigger] l2.index() == i && m.dom().contains(l2);
        LocalCoords::lemma_index_injective(l2, l);
    } else {
        if exists|l2: LocalCoords| l2.wf() && #[trigger] l2.index() == i && m.dom().contains(l2) {
            let l2 = choose|l2: LocalCoords|
                l2.wf() && #[trigger] l2.index() == i && m.dom().contains(l2);
            LocalCoords::lemma_index_injective(l2, l);
        }
    }
}

/// Logging one more action and replaying equals replaying and then applying
/// that action's outcome to its voxel.
pub proof fn lemma_replayed_insert(
    base: Seq<Block>,
    m: Map<LocalCoords, BlockAction>,
    l: LocalCoords,
    a: BlockAction,
)
    requires
        l.wf(),
        base.len() == 4096,
    ensures
        spec_replayed(base, m.insert(l, a)) =~= spec_replayed(base, m).update(
            l.index(),
            Block::spec_apply_unchecked(a),
        ),
{
    assert forall|i: int| 0 <= i < 4096 implies spec_replayed(base, m.insert(l, a))[i]
        == spec_replayed(base, m).update(l.index(), Block::spec_apply_unchecked(a))[i] by {
        lemma_index_surjective(i);
        let li = choose|li: LocalCoords| li.wf() && #[trigger] li.index() == i;
        lemma_replayed_at(base, m.insert(l, a), li);
        lemma_replayed_at(base, m, li);
        if li != l && li.index() == l.index() {
            LocalCoords::lemma_index_injective(li, l);
        }
    }
}

/// Replaying an empty log changes nothing.
pub proof fn lemma_replayed_empty(base: Seq<Block>, m: Map<LocalCoords, BlockAction>)
    requires
        forall|l: LocalCoords| !m.dom().contains(l),
    ensures
        spec_replayed(base, m) =~= base,
{
    assert forall|i: int| 0 <= i < base.len() implies spec_replayed(base, m)[i] == base[i] by {
        if exists|l2: LocalCoords| l2.wf() && #[trigger] l2.index() == i && m.dom().contains(l2) {
            let l2 = choose|l2: LocalCoords|
                l2.wf() && #[trigger] l2.index() == i && m.dom().contains(l2);
        }
    }
}

/// The blocks of a chunk after merging the candidate actions `m` into the
/// contents `prev` with checked application: a voxel changes exactly when its
/// action admits the block standing there.
pub open spec fn spec_merged(prev: Seq<Block>, m: Map<LocalCoords, BlockAction>) -> Seq<Block> {
    Seq::new(
        prev.len(),
        |i: int|
            if exists|l: LocalCoords|
                l.wf() && #[trigger] l.index() == i && m.dom().contains(l)
                    && prev[i].spec_action_applies(m[l]) {
                let l = choose|l: LocalCoords|
                    l.wf() && #[trigger] l.index() == i && m.dom().contains(l)
                        && prev[i].spec_action_applies(m[l]);
                Block::spec_apply_unchecked(m[l])
            } else {
                prev[i]
            },
    )
}

/// The candidate actions of `m` that checked application against `prev`
/// accepts — the edits that are actually made and logged.
pub open spec fn spec_applied(prev: Seq<Block>, m: Map<LocalCoords, BlockAction>) -> Map<
    LocalCoords,
    BlockAction,
> {
    Map::new(
        |l: LocalCoords|
            l.wf() && m.dom().contains(l) && prev[l.index()].spec_action_applies(m[l]),
        |l: LocalCoords| m[l],
    )
}

/// Whether every voxel of `s` is air.
pub open spec fn is_all_air(s: Seq<Block>) -> bool {
    forall|i: int| 0 <= i < s.len() ==> s[i] == Block::Air
}

/// Merging an empty action set changes nothing and applies nothing.
pub proof fn lemma_merged_empty(prev: Seq<Block>, m: Map<LocalCoords, BlockAction>)
    requires
        forall|l: LocalCoords| !m.dom().contains(l),
    ensures
        spec_merged(prev, m) =~= prev,
        spec_applied(prev, m) =~= Map::<LocalCoords, BlockAction>::empty(),
{
    assert forall|i: int| 0 <= i < prev.len() implies spec_merged(prev, m)[i] == prev[i] by {
        if exists|l2: LocalCoords|
            l2.wf() && #[trigger] l2.index() == i && m.dom().contains(l2)
                && prev[i].spec_action_applies(m[l2]) {
            let l2 = choose|l2: LocalCoords|
                l2.wf() && #[trigger] l2.index() == i && m.dom().contains(l2)
                    && prev[i].spec_action_applies(m[l2]);
        }
    }
}

/// Merge, read at one voxel.
pub proof fn lemma_merged_at(prev: Seq<Block>, m: Map<LocalCoords, BlockAction>, l: LocalCoords)
    requires
        l.wf(),
        l.index() < prev.len(),
    ensures
        spec_merged(prev, m)[l.index()] == if m.dom().contains(l)
            && prev[l.index()].spec_action_applies(m[l]) {
            Block::spec_apply_unchecked(m[l])
        } else {
            prev[l.index()]
        },
{
    let i = l.index();
    if m.dom().contains(l) && prev[i].spec_action_applies(m[l]) {
        assert(l.wf() && l.index() == i && m.dom().contains(l)
            && prev[i].spec_action_applies(m[l]));
        let l2 = choose|l2: LocalCoords|
            l2.wf() && #[trigger] l2.index() == i && m.dom().contains(l2)
                && prev[i].spec_action_applies(m[l2]);
        LocalCoords::lemma_index_injective(l2, l);
    } else {
        if exists|l2: LocalCoords|
            l2.wf() && #[trigger] l2.index() == i && m.dom().contains(l2)
                && prev[i].spec_action_applies(m[l2]) {
            let l2 = choose|l2: LocalCoords|
                l2.wf() && #[trigger] l2.index() == i && m.dom().contains(l2)
                    && prev[i].spec_action_applies(m[l2]);
            LocalCoords::lemma_index_injective(l2, l);
        }
    }
}

/// The voxels of one chunk edited so far, with the last action written to
/// each; viewed as a map from well-formed local coordinates to actions.
pub struct ActionGrid {
    slots: Vec<Option<BlockAction>>,
}

impl ActionGrid {
    pub closed spec fn wf(self) -> bool {
        self.slots@.len() == 4096
    }

    pub closed spec fn view(self) -> Map<LocalCoords, BlockAction> {
        Map::new(
            |l: LocalCoords| l.wf() && self.slots@[l.index()] is Some,
            |l: LocalCoords| self.slots@[l.index()]->Some_0,
        )
    }

    /// A log with no edits.
    pub fn new() -> (r: ActionGrid)
        ensures
            r.wf(),
            r@ =~= Map::<LocalCoords, BlockAction>::empty(),
    {
        let slots: Vec<Option<BlockAction>> = vec![None; 4096];
        ActionGrid { slots }
    }

    /// The last action written at `l`, if any.
    pub fn get(&self, l: LocalCoords) -> (r: Option<BlockAction>)
        requires
            self.wf(),
            l.wf(),
        ensures
            r matches Some(a) ==> self@.dom().contains(l) && a == self@[l],
            r is None ==> !self@.dom().contains(l),
    {
        self.slots[l.flat_index()]
    }

    /// Writes `action` at `l`, returning the action it replaced: edits are
    /// idempotent per voxel, last write wins.
    pub fn insert(&mut self, l: LocalCoords, action: BlockAction) -> (r: Option<BlockAction>)
        requires
            old(self).wf(),
            l.wf(),
        ensures
            final(self).wf(),
            final(self)@ =~= old(self)@.insert(l, action),
            r matches Some(a) ==> old(self)@.dom().contains(l) && a == old(self)@[l],
            r is None ==> !old(self)@.dom().contains(l),
    {
        let i = l.flat_index();
        let prev = self.slots[i];
        self.slots.set(i, Some(action));
        proof {
            assert forall|q: LocalCoords| #[trigger]
                old(self)@.insert(l, action).dom().contains(q)
                implies self@.dom().contains(q) && self@[q] == old(self)@.insert(l, action)[q] by {
                if q != l && q.index() == l.index() {
                    LocalCoords::lemma_index_injective(q, l);
                }
            };
            assert forall|q: LocalCoords| #[trigger] self@.dom().contains(q) implies
                old(self)@.insert(l, action).dom().contains(q) by {
                if q != l && q.index() == l.index() {
                    LocalCoords::lemma_index_injective(q, l);
                }
            };
        }
        prev
    }
}

/// The world's edit log, keyed by chunk coordinates.
pub struct ActionStore {
    grids: CoordMap<ActionGrid>,
}

impl ActionStore {
    pub closed spec fn wf(self) -> bool {
        &&& self.grids.wf()
        &&& forall|c: ChunkCoords| self.grids@.dom().contains(c) ==> (#[trigger] self.grids@[c]).wf()
    }

    /// The logged actions for the chunk at `c`; empty when nothing was ever
    /// logged there.
    pub closed spec fn log(self, c: ChunkCoords) -> Map<LocalCoords, BlockAction> {
        if self.grids@.dom().contains(c) {
            self.grids@[c]@
        } else {
            Map::empty()
        }
    }

    /// A store with no edits.
    pub fn new() -> (r: ActionStore)
        ensures
            r.wf(),
            forall|c: ChunkCoords| #[trigger] r.log(c) =~= Map::empty(),
    {
        ActionStore { grids: CoordMap::new() }
    }

    /// Logs `action` at the voxel `g`, replacing and returning any action
    /// already logged there.
    pub fn insert(&mut self, g: GlobalCoords, action: BlockAction) -> (r: Option<BlockAction>)
        requires
            old(self).wf(),
            g.wf(),
        ensures
            final(self).wf(),
            final(self).log(spec_chunk_coords(g)) =~= old(self).log(spec_chunk_coords(g)).insert(
                spec_local_coords(g),
                action,
            ),
            forall|c: ChunkCoords|
                c != spec_chunk_coords(g) ==> #[trigger] final(self).log(c) == old(self).log(c),
            r matches Some(a) ==> old(self).log(spec_chunk_coords(g)).dom().contains(
                spec_local_coords(g),
            ) && a == old(self).log(spec_chunk_coords(g))[spec_local_coords(g)],
            r is None ==> !old(self).log(spec_chunk_coords(g)).dom().contains(spec_local_coords(g)),
    {
        let c = chunk_coords(g);
        let l = local_coords(g);
        proof {
            crate::coords::lemma_coords_round_trip(g);
        }
        let mut grid = match self.grids.remove(c) {
            Some(grid) => grid,
            None => ActionGrid::new(),
        };
        let prev = grid.insert(l, action);
        self.grids.insert(c, grid);
        prev
    }

    /// Every voxel the log names is a well-formed local coordinate.
    pub proof fn lemma_log_keys_wf(self, c: ChunkCoords)
        ensures
            forall|l: LocalCoords| #[trigger] self.log(c).dom().contains(l) ==> l.wf(),
    {
    }

    /// The logged edits for the chunk at `c`, as local-coordinate/action
    /// pairs ready to replay onto a freshly generated chunk.
    pub fn actions(&self, c: ChunkCoords) -> (r: Vec<(LocalCoords, BlockAction)>)
        requires
            self.wf(),
        ensures
            forall|j: int|
                0 <= j < r@.len() ==> (#[trigger] r@[j]).0.wf() && self.log(c).dom().contains(
                    r@[j].0,
                ) && self.log(c)[r@[j].0] == r@[j].1,
            forall|l: LocalCoords|
                #[trigger] self.log(c).dom().contains(l) ==> exists|j: int|
                    0 <= j < r@.len() && (#[trigger] r@[j]).0 == l,
            forall|a: int, b: int|
                0 <= a < b < r@.len() ==> (#[trigger] r@[a]).0 != (#[trigger] r@[b]).0,
    {
        let mut r: Vec<(LocalCoords, BlockAction)> = Vec::new();
        let grid = match self.grid(c) {
            Some(grid) => grid,
            None => {
                return r;
            }
        };
        let mut i: usize = 0;
        while i < 4096
            invariant
                self.wf(),
                grid.wf(),
                grid@ == self.log(c),
                i <= 4096,
                forall|j: int|
                    0 <= j < r@.len() ==> (#[trigger] r@[j]).0.wf() && self.log(c).dom().contains(
                        r@[j].0,
                    ) && self.log(c)[r@[j].0] == r@[j].1,
                forall|l: LocalCoords|
                    self.log(c).dom().contains(l) && l.index() < i ==> exists|j: int|
                        0 <= j < r@.len() && (#[trigger] r@[j]).0 == l,
                forall|j: int| 0 <= j < r@.len() ==> (#[trigger] r@[j]).0.index() < i,
                forall|a: int, b: int|
                    0 <= a < b < r@.len() ==> (#[trigger] r@[a]).0 != (#[trigger] r@[b]).0,
            decreases 4096 - i,
        {
            let l = crate::coords::local_from_index(i);
            match grid.get(l) {
                Some(action) => {
                    let ghost before = r@;
                    r.push((l, action));
                    proof {
                        assert forall|q: LocalCoords|
                            self.log(c).dom().contains(q) && q.index() < i + 1 implies exists|
                            j: int,
                        |
                            0 <= j < r@.len() && (#[trigger] r@[j]).0 == q by {
                            if q.index() < i {
                                let j = choose|j: int|
                                    0 <= j < before.len() && (#[trigger] before[j]).0 == q;
                                assert(r@[j].0 == q);
                            } else {
                                if q != l {
                                    LocalCoords::lemma_index_injective(q, l);
                                }
                                assert(r@[r@.len() - 1].0 == q);
                            }
                        }
                        assert forall|a: int, b: int|
                            0 <= a < b < r@.len() implies (#[trigger] r@[a]).0 != (
                        #[trigger] r@[b]).0 by {
                            if b == r@.len() - 1 {
                                assert(before[a].0.index() < i);
                            }
                        }
                    }
                }
                None => {
                    proof {
                        assert forall|q: LocalCoords|
                            self.log(c).dom().contains(q) && q.index() < i + 1 implies exists|
                            j: int,
                        |
                            0 <= j < r@.len() && (#[trigger] r@[j]).0 == q by {
                            if q.index() == i && q != l {
                                LocalCoords::lemma_index_injective(q, l);
                            }
                        }
                    }
                }
            }
            i += 1;
        }
        proof {
            self.lemma_log_keys_wf(c);
        }
        r
    }

    /// The per-chunk log for the chunk at `c`, if any edit was ever logged
    /// there.
    pub fn grid(&self, c: ChunkCoords) -> (r: Option<&ActionGrid>)
        requires
            self.wf(),
        ensures
            r matches Some(grid) ==> grid.wf() && grid@ == self.log(c),
            r is None ==> self.log(c) =~= Map::empty(),
    {
        self.grids.get(c)
    }
}

} // verus!
