//! The world: chunk store, edit log and generator behind one owner, with the
//! replay invariant that makes unloading safe — every stored chunk equals its
//! generated contents with the logged edits replayed, and a coordinate whose
//! replayed contents are all air is absent from the store.

use crate::action::{
    all_air, is_all_air, lemma_merged_at, lemma_merged_empty, lemma_replayed_at,
    lemma_replayed_empty, lemma_replayed_insert, spec_applied, spec_merged, spec_replayed,
    ActionGrid, ActionStore,
};
use crate::block::{Block, BlockAction, BlockTable};
use crate::chunk::Chunk;
use crate::coords::{
    local_from_index, spec_chunk_coords, spec_local_coords, ChunkCoords, GlobalCoords, LocalCoords,
    Offset,
};
use crate::generator::ChunkGenerator;
use crate::store::ChunkStore;
use vstd::prelude::*;

verus! {

/// Lowest chunk height the world keeps, inclusive.
pub const Y_MIN: i32 = -4;

/// Greatest chunk height the world keeps, exclusive.
pub const Y_MAX: i32 = 20;

/// Whether a chunk coordinate lies inside the world's vertical bound.
pub open spec fn spec_in_y_range(c: ChunkCoords) -> bool {
    Y_MIN <= c.y < Y_MAX
}

pub fn in_y_range(c: ChunkCoords) -> (r: bool)
    ensures
        r == spec_in_y_range(c),
{
    Y_MIN <= c.y && c.y < Y_MAX
}

/// The voxel a raycast hit, and the face normal it entered through.
#[derive(Clone, Copy, PartialEq, Eq, Structural, Debug)]
pub struct BlockIntersection {
    pub coords: GlobalCoords,
    pub normal: Offset,
}

/// The authoritative world state.
pub struct World {
    pub chunks: ChunkStore,
    pub actions: ActionStore,
    pub generator: ChunkGenerator,
    pub light: crate::light::WorldLight,
    pub table: BlockTable,
    pub hover: Option<BlockIntersection>,
    pub base: Ghost<Map<ChunkCoords, Seq<Block>>>,
}

impl World {
    /// The replay invariant. Every stored chunk equals its base contents —
    /// what generation produced, or all air for chunks first created by
    /// edits — with the logged actions replayed; everywhere else the
    /// replayed contents are all air, so regenerating and replaying restores
    /// exactly what was unloaded.
    pub open spec fn inv(self) -> bool {
        &&& self.table.wf()
        &&& self.chunks.wf(self.table)
        &&& self.actions.wf()
        &&& self.light.wf()
        &&& forall|c: ChunkCoords| (#[trigger] self.base@[c]).len() == 4096
        &&& forall|c: ChunkCoords|
            self.chunks.dom().contains(c) ==> #[trigger] self.chunks.blocks_at(c)
                == spec_replayed(self.base@[c], self.actions.log(c))
        &&& forall|c: ChunkCoords|
            !self.chunks.dom().contains(c) ==> #[trigger] spec_replayed(
                self.base@[c],
                self.actions.log(c),
            ) =~= all_air()
        &&& self.hover matches Some(h) ==> h.coords.wf()
    }

    /// A world with no chunks and no logged edits.
    pub fn new(table: BlockTable) -> (r: World)
        requires
            table.wf(),
        ensures
            r.inv(),
            r.table == table,
            r.chunks.dom() =~= Set::empty(),
            forall|c: ChunkCoords| #[trigger] r.actions.log(c) =~= Map::empty(),
            r.hover is None,
    {
        let r = World {
            chunks: ChunkStore::new(),
            actions: ActionStore::new(),
            generator: ChunkGenerator::new(),
            light: crate::light::WorldLight::new(),
            table,
            hover: None,
            base: Ghost(Map::new(|c: ChunkCoords| true, |c: ChunkCoords| all_air())),
        };
        proof {
            assert forall|c: ChunkCoords| #[trigger]
                spec_replayed(r.base@[c], r.actions.log(c)) =~= all_air() by {
                lemma_replayed_empty(r.base@[c], r.actions.log(c));
            }
        }
        r
    }

    /// The chunk contents an edit merge works against at `c`: the stored
    /// blocks, or all air where the chunk is absent.
    pub open spec fn blocks_or_air(self, c: ChunkCoords) -> Seq<Block> {
        if self.chunks.dom().contains(c) {
            self.chunks.blocks_at(c)
        } else {
            all_air()
        }
    }

    /// What a freshly generated chunk at `c` holds: the generator's output
    /// with the chunk's logged actions replayed.
    pub open spec fn spec_regenerated(self, c: ChunkCoords) -> Seq<Block> {
        spec_replayed(self.generator.spec_generate(c), self.actions.log(c))
    }

    /// Generates the chunk at `c`: nothing if `c` is already present, else
    /// the generator's output with the chunk's logged actions replayed —
    /// discarded if that leaves every voxel air. The store is untouched:
    /// generation is idempotent and side-effect free until the caller
    /// inserts the result.
    pub fn generate(&self, c: ChunkCoords) -> (r: Option<Chunk>)
        requires
            self.inv(),
        ensures
            r matches Some(chunk) ==> !self.chunks.dom().contains(c) && chunk.wf(self.table)
                && !chunk.spec_is_empty() && chunk@ == self.spec_regenerated(c),
            r is None ==> self.chunks.dom().contains(c) || self.spec_regenerated(c) =~= all_air(),
    {
        if self.chunks.contains(c, &self.table) {
            return None;
        }
        let mut chunk = self.generator.generate(c, &self.table);
        let ghost gen = self.generator.spec_generate(c);
        let ghost log = self.actions.log(c);
        match self.actions.grid(c) {
            Some(grid) => {
                let mut i: usize = 0;
                while i < 4096
                    invariant
                        self.table.wf(),
                        grid.wf(),
                        grid@ == log,
                        gen.len() == 4096,
                        chunk.wf(self.table),
                        chunk@.len() == 4096,
                        i <= 4096,
                        forall|l: LocalCoords|
                            l.wf() ==> #[trigger] chunk@[l.index()] == if l.index() < i
                                && log.dom().contains(l) {
                                Block::spec_apply_unchecked(log[l])
                            } else {
                                gen[l.index()]
                            },
                    decreases 4096 - i,
                {
                    let l = local_from_index(i);
                    match grid.get(l) {
                        Some(action) => {
                            chunk.apply_unchecked(l, &action, &self.table);
                            proof {
                                assert forall|q: LocalCoords| q.wf() implies #[trigger] chunk@[
                                    q.index()] == if q.index() < i + 1 && log.dom().contains(q) {
                                    Block::spec_apply_unchecked(log[q])
                                } else {
                                    gen[q.index()]
                                } by {
                                    if q != l && q.index() == l.index() {
                                        LocalCoords::lemma_index_injective(q, l);
                                    }
                                }
                            }
                        }
                        None => {
                            proof {
                                assert forall|q: LocalCoords| q.wf() implies #[trigger] chunk@[
                                    q.index()] == if q.index() < i + 1 && log.dom().contains(q) {
                                    Block::spec_apply_unchecked(log[q])
                                } else {
                                    gen[q.index()]
                                } by {
                                    if q != l && q.index() == l.index() {
                                        LocalCoords::lemma_index_injective(q, l);
                                    }
                                }
                            }
                        }
                    }
                    i += 1;
                }
                proof {
                    lemma_replay_matches(chunk@, gen, log);
                }
            }
            None => {
                proof {
                    lemma_replayed_empty(gen, log);
                    assert(chunk@ =~= spec_replayed(gen, log));
                }
            }
        }
        if chunk.is_empty(&self.table) {
            proof {
                assert(self.spec_regenerated(c) =~= all_air());
            }
            None
        } else {
            Some(chunk)
        }
    }
}

impl World {
    /// Generates and inserts every absent, non-empty chunk among `points`,
    /// returning the coordinates actually inserted. Coordinates already
    /// present, and coordinates whose regenerated contents are all air, are
    /// skipped.
    pub fn insert_many(&mut self, points: &Vec<ChunkCoords>) -> (r: Vec<ChunkCoords>)
        requires
            old(self).inv(),
        ensures
            final(self).inv(),
            final(self).table == old(self).table,
            final(self).generator == old(self).generator,
            final(self).hover == old(self).hover,
            final(self).light == old(self).light,
            final(self).actions == old(self).actions,
            forall|c: ChunkCoords|
                final(self).chunks.dom().contains(c) <==> old(self).chunks.dom().contains(c)
                    || r@.contains(c),
            forall|c: ChunkCoords|
                #[trigger] r@.contains(c) ==> !old(self).chunks.dom().contains(c)
                    && points@.contains(c) && final(self).chunks.blocks_at(c) == old(
                    self,
                ).spec_regenerated(c),
            forall|c: ChunkCoords|
                old(self).chunks.dom().contains(c) ==> #[trigger] final(self).chunks.blocks_at(c)
                    == old(self).chunks.blocks_at(c),
            forall|c: ChunkCoords|
                points@.contains(c) && !old(self).chunks.dom().contains(c) && !is_all_air(
                    old(self).spec_regenerated(c),
                ) ==> r@.contains(c),
            crate::coord_map::distinct_keys(r@),
    {
        let ghost pre = *old(self);
        let mut r: Vec<ChunkCoords> = Vec::new();
        let mut i: usize = 0;
        while i < points.len()
            invariant
                self.inv(),
                pre.inv(),
                i <= points@.len(),
                self.table == pre.table,
                self.generator == pre.generator,
                self.hover == pre.hover,
                self.light == pre.light,
                self.actions == pre.actions,
                forall|c: ChunkCoords| #![trigger pre.chunks.dom().contains(c)]
                    (self.chunks.dom().contains(c) <==> pre.chunks.dom().contains(c)
                        || r@.contains(c)),
                forall|c: ChunkCoords|
                    #[trigger] r@.contains(c) ==> !pre.chunks.dom().contains(c)
                        && points@.subrange(0, i as int).contains(c) && self.chunks.blocks_at(c)
                        == pre.spec_regenerated(c),
                forall|c: ChunkCoords| #![trigger pre.chunks.blocks_at(c)]
                    pre.chunks.dom().contains(c) ==> self.chunks.blocks_at(c)
                        == pre.chunks.blocks_at(c),
                forall|c: ChunkCoords|
                    points@.subrange(0, i as int).contains(c) ==> self.chunks.dom().contains(c)
                        || is_all_air(#[trigger] pre.spec_regenerated(c)),
                crate::coord_map::distinct_keys(r@),
            decreases points@.len() - i,
        {
            let c = points[i];
            let ghost r_before = r@;
            match self.generate(c) {
                Some(chunk) => {
                    proof {
                        assert(!self.chunks.dom().contains(c));
                    }
                    let ghost base_before = self.base@;
                    let ghost s0 = *self;
                    proof {
                        self.base@ = self.base@.insert(c, self.generator.spec_generate(c));
                        assert(self.chunks == s0.chunks);
                        assert(!self.chunks.dom().contains(c));
                    }
                    self.chunks.insert(c, chunk, &self.table);
                    r.push(c);
                    proof {
                        assert(!s0.chunks.dom().contains(c));
                        assert(s0.chunks.dom().contains(c) <==> pre.chunks.dom().contains(c)
                            || r_before.contains(c));
                        assert(!pre.chunks.dom().contains(c));
                        assert forall|q: ChunkCoords|
                            q != c && !self.chunks.dom().contains(q) implies #[trigger]
                            spec_replayed(self.base@[q], self.actions.log(q)) =~= all_air() by {
                            assert(self.base@[q] == base_before[q]);
                            assert(s0.chunks.dom().contains(q) <==> pre.chunks.dom().contains(q)
                                || r_before.contains(q));
                            assert(!s0.chunks.dom().contains(q));
                        }
                        assert forall|q: ChunkCoords|
                            q != c && self.chunks.dom().contains(q) implies #[trigger]
                            self.chunks.blocks_at(q) == spec_replayed(
                            self.base@[q],
                            self.actions.log(q),
                        ) by {
                            assert(self.base@[q] == base_before[q]);
                            assert(s0.chunks.dom().contains(q) <==> pre.chunks.dom().contains(q)
                                || r_before.contains(q));
                            assert(s0.chunks.dom().contains(q));
                            assert(self.chunks.blocks_at(q) == s0.chunks.blocks_at(q));
                        }
                        assert(self.chunks.blocks_at(c) == spec_replayed(
                            self.base@[c],
                            self.actions.log(c),
                        ));
                        assert forall|q: ChunkCoords|
                            self.chunks.dom().contains(q) <==> (pre.chunks.dom().contains(q)
                            || r@.contains(q)) by {
                            vstd::seq_lib::lemma_seq_contains_after_push(r_before, c, q);
                            assert(s0.chunks.dom().contains(q) <==> pre.chunks.dom().contains(q)
                                || r_before.contains(q));
                        }
                        assert forall|q: ChunkCoords|
                            pre.chunks.dom().contains(q) implies #[trigger] self.chunks.blocks_at(
                            q,
                        ) == pre.chunks.blocks_at(q) by {
                            assert(s0.chunks.dom().contains(q) <==> pre.chunks.dom().contains(q)
                                || r_before.contains(q));
                            assert(q != c);
                            assert(s0.chunks.dom().contains(q));
                            assert(s0.chunks.blocks_at(q) == pre.chunks.blocks_at(q));
                            assert(self.chunks.blocks_at(q) == s0.chunks.blocks_at(q));
                        }
                    }
                }
                None => {
                    proof {
                        if !self.chunks.dom().contains(c) {
                            assert(is_all_air(pre.spec_regenerated(c))) by {
                                assert(self.spec_regenerated(c) =~= all_air());
                            }
                        }
                    }
                }
            }
            proof {
                assert(points@.subrange(0, i + 1) =~= points@.subrange(0, i as int).push(
                    points@[i as int],
                ));
                assert forall|q: ChunkCoords|
                    points@.subrange(0, i + 1).contains(q) implies self.chunks.dom().contains(q)
                    || is_all_air(#[trigger] pre.spec_regenerated(q)) by {
                    vstd::seq_lib::lemma_seq_contains_after_push(
                        points@.subrange(0, i as int),
                        points@[i as int],
                        q,
                    );
                }
                assert forall|q: ChunkCoords| #[trigger]
                    r@.contains(q) implies !pre.chunks.dom().contains(q) && points@.subrange(
                    0,
                    i + 1,
                ).contains(q) && self.chunks.blocks_at(q) == pre.spec_regenerated(q) by {
                    if r@ != r_before {
                        vstd::seq_lib::lemma_seq_contains_after_push(r_before, c, q);
                    }
                    vstd::seq_lib::lemma_seq_contains_after_push(
                        points@.subrange(0, i as int),
                        points@[i as int],
                        q,
                    );
                }
                assert(crate::coord_map::distinct_keys(r@)) by {
                    if r@ != r_before {
                        assert(!r_before.contains(c));
                        assert forall|a: int, b: int|
                            0 <= a < b < r@.len() implies #[trigger] r@[a] != #[trigger] r@[b] by {
                            if b == r@.len() - 1 {
                                assert(r_before.contains(r_before[a]));
                            }
                        }
                    }
                }
            }
            i += 1;
        }
        proof {
            assert(points@.subrange(0, points@.len() as int) =~= points@);
        }
        r
    }

    /// The world's replay consistency, stated of any stored chunk: what the
    /// store holds at `c` is exactly the chunk's base contents with every
    /// logged action for `c` replayed. Together with the determinism of
    /// generation and replay, this makes unload-and-regenerate lossless.
    pub proof fn lemma_replay_consistency(self, c: ChunkCoords)
        requires
            self.inv(),
            self.chunks.dom().contains(c),
        ensures
            self.chunks.blocks_at(c) == spec_replayed(self.base@[c], self.actions.log(c)),
    {
    }

    /// No empty chunks: a chunk coordinate present in the store always holds
    /// a voxel that is not air; a coordinate whose chunk the logged edits
    /// reduce to all air is absent.
    pub proof fn lemma_no_empty_chunks(self, c: ChunkCoords)
        requires
            self.inv(),
        ensures
            self.chunks.dom().contains(c) ==> !is_all_air(self.chunks.blocks_at(c)),
            is_all_air(spec_replayed(self.base@[c], self.actions.log(c)))
                ==> !self.chunks.dom().contains(c),
    {
        if self.chunks.dom().contains(c) {
            self.chunks.lemma_stored_not_all_air(self.table, c);
        }
    }
}

/// The upward unit offset.
pub open spec fn spec_up() -> Offset {
    Offset { x: 0i8, y: 1i8, z: 0i8 }
}

/// The downward unit offset.
pub open spec fn spec_down() -> Offset {
    Offset { x: 0i8, y: -1i8, z: 0i8 }
}

/// Whether `action` at the voxel `g`, reached through the face with normal
/// `normal`, passes validation: the target must lie inside the vertical
/// world bound, and a block that needs a supporting surface may only be
/// placed onto the top face of exactly that surface block.
pub open spec fn spec_action_valid(
    chunks: ChunkStore,
    t: BlockTable,
    g: GlobalCoords,
    normal: Offset,
    action: BlockAction,
) -> bool {
    &&& g.wf()
    &&& spec_in_y_range(spec_chunk_coords(g))
    &&& match action {
        BlockAction::Place(b) => match t.spec_data(b).valid_surface {
            Some(surface) => {
                &&& normal.spec_is_up()
                &&& g.spec_offset(spec_down()).wf()
                &&& chunks.spec_block(g.spec_offset(spec_down())) == surface
            },
            None => true,
        },
        BlockAction::Destroy => true,
    }
}

/// Whether destroying the voxel `g` drags the voxel above it down too: it
/// does when the block above depends on a supporting surface.
pub open spec fn spec_cascades(
    chunks: ChunkStore,
    t: BlockTable,
    g: GlobalCoords,
    action: BlockAction,
) -> bool {
    &&& action is Destroy
    &&& g.spec_offset(spec_up()).wf()
    &&& t.spec_data(chunks.spec_block(g.spec_offset(spec_up()))).valid_surface is Some
}

/// The candidate actions a validated edit leaves pending for the chunk at
/// `c`: the edit itself, and the dependent destruction above it when the
/// edit cascades.
pub open spec fn spec_branch_edit(
    chunks: ChunkStore,
    t: BlockTable,
    g: GlobalCoords,
    action: BlockAction,
    c: ChunkCoords,
) -> Map<LocalCoords, BlockAction> {
    let m0 = Map::<LocalCoords, BlockAction>::empty();
    let m1 = if c == spec_chunk_coords(g) {
        m0.insert(spec_local_coords(g), action)
    } else {
        m0
    };
    if spec_cascades(chunks, t, g, action) && c == spec_chunk_coords(g.spec_offset(spec_up())) {
        m1.insert(spec_local_coords(g.spec_offset(spec_up())), BlockAction::Destroy)
    } else {
        m1
    }
}

/// A transactional batch of candidate edits: built by validating actions
/// against a read-only view of the store, then merged into the world in one
/// step.
pub struct Branch {
    pub edits: crate::coord_map::CoordMap<crate::action::ActionGrid>,
}

impl Branch {
    pub open spec fn wf(self) -> bool {
        &&& self.edits.wf()
        &&& forall|c: ChunkCoords|
            self.edits@.dom().contains(c) ==> (#[trigger] self.edits@[c]).wf()
    }

    /// The candidate actions pending for the chunk at `c`.
    pub open spec fn pending(self, c: ChunkCoords) -> Map<LocalCoords, BlockAction> {
        if self.edits@.dom().contains(c) {
            self.edits@[c]@
        } else {
            Map::empty()
        }
    }

    /// A branch with nothing pending.
    pub fn new() -> (r: Branch)
        ensures
            r.wf(),
            forall|c: ChunkCoords| #[trigger] r.pending(c) =~= Map::empty(),
    {
        Branch { edits: crate::coord_map::CoordMap::new() }
    }

    fn insert(&mut self, c: ChunkCoords, l: LocalCoords, action: BlockAction)
        requires
            old(self).wf(),
            l.wf(),
        ensures
            final(self).wf(),
            final(self).pending(c) =~= old(self).pending(c).insert(l, action),
            forall|q: ChunkCoords| q != c ==> #[trigger] final(self).pending(q) == old(
                self,
            ).pending(q),
    {
        let mut grid = match self.edits.remove(c) {
            Some(grid) => grid,
            None => crate::action::ActionGrid::new(),
        };
        let _ = grid.insert(l, action);
        let _ = self.edits.insert(c, grid);
    }

    /// Validates `action` at the voxel `g` reached through the face with
    /// normal `normal`, and queues it — together with a dependent
    /// destruction of the voxel above, when destroying `g` removes that
    /// voxel's supporting surface. Reports whether the action was valid; an
    /// invalid action is silently rejected and leaves the branch unchanged.
    pub fn apply(
        &mut self,
        chunks: &ChunkStore,
        g: GlobalCoords,
        normal: Offset,
        action: BlockAction,
        t: &BlockTable,
    ) -> (r: bool)
        requires
            old(self).wf(),
            forall|c: ChunkCoords| #[trigger] old(self).pending(c) =~= Map::empty(),
            chunks.wf(*t),
            t.wf(),
            g.wf(),
        ensures
            final(self).wf(),
            r == spec_action_valid(*chunks, *t, g, normal, action),
            !r ==> forall|c: ChunkCoords| #[trigger] final(self).pending(c) =~= Map::empty(),
            r ==> forall|c: ChunkCoords| #[trigger] final(self).pending(c) =~= spec_branch_edit(
                *chunks,
                *t,
                g,
                action,
                c,
            ),
    {
        if !self.is_action_valid(chunks, g, normal, action, t) {
            return false;
        }
        let cg = crate::coords::chunk_coords(g);
        let lg = crate::coords::local_coords(g);
        self.insert(cg, lg, action);
        let cascades = match action {
            BlockAction::Destroy => match g.offset(Offset::new(0, 1, 0)) {
                Some(top) => {
                    let above = chunks.block(top, t);
                    t.data(above).valid_surface.is_some()
                }
                None => false,
            },
            _ => false,
        };
        if cascades {
            let top = match g.offset(Offset::new(0, 1, 0)) {
                Some(top) => top,
                None => unreached(),
            };
            let ct = crate::coords::chunk_coords(top);
            let lt = crate::coords::local_coords(top);
            self.insert(ct, lt, BlockAction::Destroy);
        }
        true
    }

    fn is_action_valid(
        &self,
        chunks: &ChunkStore,
        g: GlobalCoords,
        normal: Offset,
        action: BlockAction,
        t: &BlockTable,
    ) -> (r: bool)
        requires
            chunks.wf(*t),
            t.wf(),
            g.wf(),
        ensures
            r == spec_action_valid(*chunks, *t, g, normal, action),
    {
        if !in_y_range(crate::coords::chunk_coords(g)) {
            return false;
        }
        match action {
            BlockAction::Place(block) => match t.data(block).valid_surface {
                Some(surface) => {
                    if !normal.is_up() {
                        return false;
                    }
                    match g.offset(Offset::new(0, -1, 0)) {
                        Some(beneath) => chunks.block(beneath, t) == surface,
                        None => false,
                    }
                }
                None => true,
            },
            BlockAction::Destroy => true,
        }
    }
}

/// The candidate actions at a chunk accepted against `prev` among the voxels
/// with dense index below `n` — the edits a merge has made after processing
/// the first `n` voxels.
pub open spec fn spec_applied_below(
    prev: Seq<Block>,
    m: Map<LocalCoords, BlockAction>,
    n: int,
) -> Map<LocalCoords, BlockAction> {
    Map::new(
        |l: LocalCoords|
            l.wf() && l.index() < n && m.dom().contains(l) && prev[l.index()].spec_action_applies(
                m[l],
            ),
        |l: LocalCoords| m[l],
    )
}

/// What merging candidate actions `m` into the world guarantees at the chunk
/// coordinate `c`: the chunk is present exactly when the merged contents
/// hold a non-air voxel, present contents are the merged contents, and the
/// log gains exactly the accepted actions.
pub open spec fn spec_merge_post(
    pre: World,
    post: World,
    m: Map<LocalCoords, BlockAction>,
    c: ChunkCoords,
) -> bool {
    let prev = pre.blocks_or_air(c);
    let merged = spec_merged(prev, m);
    &&& (post.chunks.dom().contains(c) <==> !is_all_air(merged))
    &&& (post.chunks.dom().contains(c) ==> post.chunks.blocks_at(c) == merged)
    &&& post.actions.log(c) =~= pre.actions.log(c).union_prefer_right(spec_applied(prev, m))
}

/// Whether merging `branch` into the world `pre` mutates the voxel `g` with
/// the action `a`.
pub open spec fn spec_hit(pre: World, branch: Branch, g: GlobalCoords, a: BlockAction) -> bool {
    let c = spec_chunk_coords(g);
    let l = spec_local_coords(g);
    &&& g.wf()
    &&& spec_applied(pre.blocks_or_air(c), branch.pending(c)).dom().contains(l)
    &&& a == branch.pending(c)[l]
}

/// The chunk coordinates inserted, the coordinates removed, and the voxels
/// mutated by one merge.
pub struct MergeOutcome {
    pub inserts: Vec<ChunkCoords>,
    pub removals: Vec<ChunkCoords>,
    pub hits: Vec<(GlobalCoords, BlockAction)>,
}

impl World {
    /// Merges one chunk's candidate actions: applies each action its target
    /// voxel admits, logs exactly those, removes the chunk when it ends up
    /// empty and synthesizes it when edits first materialize it.
    fn merge_chunk(
        &mut self,
        c: ChunkCoords,
        grid: &ActionGrid,
        inserts: &mut Vec<ChunkCoords>,
        removals: &mut Vec<ChunkCoords>,
        hits: &mut Vec<(GlobalCoords, BlockAction)>,
    )
        requires
            old(self).inv(),
            grid.wf(),
        ensures
            final(self).inv(),
            final(self).table == old(self).table,
            final(self).generator == old(self).generator,
            final(self).hover == old(self).hover,
            final(self).base == old(self).base,
            final(self).light == old(self).light,
            spec_merge_post(*old(self), *final(self), grid@, c),
            forall|q: ChunkCoords|
                q != c ==> final(self).chunks.dom().contains(q) == old(self).chunks.dom().contains(
                    q,
                ),
            forall|q: ChunkCoords|
                q != c && old(self).chunks.dom().contains(q) ==> #[trigger] final(self).chunks.blocks_at(q) == old(self).chunks.blocks_at(q),
            forall|q: ChunkCoords|
                q != c ==> #[trigger] final(self).actions.log(q) == old(self).actions.log(q),
            final(inserts)@ == if !old(self).chunks.dom().contains(c) && final(self).chunks.dom().contains(c) {
                old(inserts)@.push(c)
            } else {
                old(inserts)@
            },
            final(removals)@ == if old(self).chunks.dom().contains(c) && !final(self).chunks.dom().contains(c) {
                old(removals)@.push(c)
            } else {
                old(removals)@
            },
            forall|g: GlobalCoords, a: BlockAction|
                final(hits)@.contains((g, a)) <==> old(hits)@.contains((g, a)) || (g.wf()
                    && spec_chunk_coords(g) == c && spec_applied(
                    old(self).blocks_or_air(c),
                    grid@,
                ).dom().contains(spec_local_coords(g)) && a == grid@[spec_local_coords(g)]),
    {
        let ghost pre = *old(self);
        let present = self.chunks.contains(c, &self.table);
        let mut chunk = if present {
            self.chunks.remove(c, &self.table)
        } else {
            Chunk::new(&self.table)
        };
        let ghost prev = chunk@;
        let ghost m = grid@;
        let ghost mid_chunks = self.chunks;
        proof {
            if !present {
                assert(chunk@ =~= all_air());
                assert(chunk@ =~= spec_replayed(self.base@[c], self.actions.log(c)));
            }
            assert(self.actions.log(c).union_prefer_right(spec_applied_below(prev, m, 0)) =~= self
                .actions.log(c));
        }
        let mut i: usize = 0;
        while i < 4096
            invariant
                self.table == pre.table,
                self.generator == pre.generator,
                self.hover == pre.hover,
                self.base == pre.base,
                self.light == pre.light,
                self.light.wf(),
                self.table.wf(),
                self.chunks == mid_chunks,
                mid_chunks.wf(pre.table),
                !mid_chunks.dom().contains(c),
                forall|q: ChunkCoords|
                    q != c ==> mid_chunks.dom().contains(q) == pre.chunks.dom().contains(q),
                forall|q: ChunkCoords|
                    q != c && pre.chunks.dom().contains(q) ==> #[trigger] mid_chunks.blocks_at(q)
                        == pre.chunks.blocks_at(q),
                prev.len() == 4096,
                prev == pre.blocks_or_air(c),
                grid.wf(),
                grid@ == m,
                chunk.wf(self.table),
                chunk@.len() == 4096,
                i <= 4096,
                forall|l: LocalCoords|
                    l.wf() ==> #[trigger] chunk@[l.index()] == if l.index() < i && m.dom().contains(
                        l,
                    ) && prev[l.index()].spec_action_applies(m[l]) {
                        Block::spec_apply_unchecked(m[l])
                    } else {
                        prev[l.index()]
                    },
                self.actions.wf(),
                self.actions.log(c) =~= pre.actions.log(c).union_prefer_right(
                    spec_applied_below(prev, m, i as int),
                ),
                forall|q: ChunkCoords|
                    q != c ==> #[trigger] self.actions.log(q) == pre.actions.log(q),
                chunk@ == spec_replayed(self.base@[c], self.actions.log(c)),
                forall|q: ChunkCoords| (#[trigger] self.base@[q]).len() == 4096,
                forall|q: ChunkCoords|
                    q != c && mid_chunks.dom().contains(q) ==> #[trigger] mid_chunks.blocks_at(q)
                        == spec_replayed(self.base@[q], self.actions.log(q)),
                forall|q: ChunkCoords|
                    q != c && !mid_chunks.dom().contains(q) ==> #[trigger] spec_replayed(
                        self.base@[q],
                        self.actions.log(q),
                    ) =~= all_air(),
                inserts == old(inserts),
                removals == old(removals),
                forall|g: GlobalCoords, a: BlockAction|
                    hits@.contains((g, a)) <==> old(hits)@.contains((g, a)) || (g.wf()
                        && spec_chunk_coords(g) == c && spec_applied_below(
                        prev,
                        m,
                        i as int,
                    ).dom().contains(spec_local_coords(g)) && a == m[spec_local_coords(g)]),
            decreases 4096 - i,
        {
            let l = local_from_index(i);
            let ghost log_before = self.actions.log(c);
            let mut step_applied = false;
            match grid.get(l) {
                Some(action) => {
                    if chunk.apply(l, &action, &self.table) {
                        step_applied = true;
                        let g = crate::coords::global_coords(c, l);
                        proof {
                            crate::coords::lemma_coords_decompose(c, l);
                        }
                        let _ = self.actions.insert(g, action);
                        let ghost hits_before = hits@;
                        hits.push((g, action));
                        proof {
                            lemma_replayed_insert(self.base@[c], log_before, l, action);
                            assert(chunk@ == spec_replayed(self.base@[c], self.actions.log(c)));
                            assert forall|q: LocalCoords| q.wf() implies #[trigger] chunk@[q.index()]
                                == if q.index() < i + 1 && m.dom().contains(q)
                                    && prev[q.index()].spec_action_applies(m[q]) {
                                Block::spec_apply_unchecked(m[q])
                            } else {
                                prev[q.index()]
                            } by {
                                if q != l && q.index() == l.index() {
                                    LocalCoords::lemma_index_injective(q, l);
                                }
                            }
                            pre.actions.lemma_log_keys_wf(c);
                            let ghost lhs = log_before.insert(l, action);
                            let ghost rhs = pre.actions.log(c).union_prefer_right(
                                spec_applied_below(prev, m, i + 1),
                            );
                            assert forall|q: LocalCoords| #[trigger]
                                lhs.dom().contains(q) implies rhs.dom().contains(q) && lhs[q]
                                == rhs[q] by {
                                if q != l && q.wf() && q.index() == l.index() {
                                    LocalCoords::lemma_index_injective(q, l);
                                }
                            }
                            assert forall|q: LocalCoords| #[trigger]
                                rhs.dom().contains(q) implies lhs.dom().contains(q) by {
                                if q != l && q.wf() && q.index() == l.index() {
                                    LocalCoords::lemma_index_injective(q, l);
                                }
                            }
                            assert(lhs =~= rhs);
                            assert forall|g2: GlobalCoords, a2: BlockAction|
                                hits@.contains((g2, a2)) <==> (old(hits)@.contains((g2, a2)) || (
                                g2.wf() && spec_chunk_coords(g2) == c && spec_applied_below(
                                    prev,
                                    m,
                                    i + 1,
                                ).dom().contains(spec_local_coords(g2)) && a2 == m[
                                    spec_local_coords(g2)])) by {
                                vstd::seq_lib::lemma_seq_contains_after_push(
                                    hits_before,
                                    (g, action),
                                    (g2, a2),
                                );
                                crate::coords::lemma_coords_decompose(c, l);
                                if g2.wf() && spec_chunk_coords(g2) == c {
                                    crate::coords::lemma_coords_round_trip(g2);
                                    let l2 = spec_local_coords(g2);
                                    if l2 != l && l2.index() == l.index() {
                                        LocalCoords::lemma_index_injective(l2, l);
                                    }
                                }
                            }
                        }
                    }
                }
                None => {}
            }
            proof {
                if !step_applied {
                    assert(spec_applied_below(prev, m, i + 1) =~= spec_applied_below(
                        prev,
                        m,
                        i as int,
                    )) by {
                        assert forall|q: LocalCoords|
                            spec_applied_below(prev, m, i + 1).dom().contains(q) implies
                            spec_applied_below(prev, m, i as int).dom().contains(q) by {
                            if q.index() == i {
                                LocalCoords::lemma_index_injective(q, l);
                            }
                        }
                    }
                    assert forall|q: LocalCoords| q.wf() implies #[trigger] chunk@[q.index()]
                        == if q.index() < i + 1 && m.dom().contains(q)
                            && prev[q.index()].spec_action_applies(m[q]) {
                        Block::spec_apply_unchecked(m[q])
                    } else {
                        prev[q.index()]
                    } by {
                        if q.index() == i {
                            LocalCoords::lemma_index_injective(q, l);
                        }
                    }
                }
            }
            i += 1;
        }
        proof {
            lemma_merged_matches(chunk@, prev, m);
            assert(spec_applied_below(prev, m, 4096) =~= spec_applied(prev, m));
        }
        if chunk.is_empty(&self.table) {
            proof {
                assert(is_all_air(spec_merged(prev, m)));
                assert(spec_replayed(self.base@[c], self.actions.log(c)) =~= all_air());
            }
            if present {
                removals.push(c);
            }
        } else {
            proof {
                assert(!is_all_air(spec_merged(prev, m))) by {
                    assert(exists|j: int| 0 <= j < chunk@.len() && chunk@[j] != Block::Air);
                }
            }
            self.chunks.insert(c, chunk, &self.table);
            if !present {
                inserts.push(c);
            }
        }
    }
}

impl World {
    /// Merges a validated branch into the world in one step: every candidate
    /// action its target voxel admits is applied and logged; chunks that end
    /// up empty are removed, chunks that edits first materialize are
    /// synthesized. Returns the inserted chunk coordinates, the removed
    /// ones, and every voxel mutated.
    pub fn merge_branch(&mut self, branch: &Branch) -> (r: MergeOutcome)
        requires
            old(self).inv(),
            branch.wf(),
        ensures
            final(self).inv(),
            final(self).table == old(self).table,
            final(self).generator == old(self).generator,
            final(self).hover == old(self).hover,
            final(self).base == old(self).base,
            final(self).light == old(self).light,
            forall|c: ChunkCoords|
                spec_merge_post(*old(self), *final(self), #[trigger] branch.pending(c), c),
            forall|c: ChunkCoords|
                #[trigger] r.inserts@.contains(c) <==> (!old(self).chunks.dom().contains(c)
                    && final(self).chunks.dom().contains(c)),
            forall|c: ChunkCoords|
                #[trigger] r.removals@.contains(c) <==> (old(self).chunks.dom().contains(c)
                    && !final(self).chunks.dom().contains(c)),
            crate::coord_map::distinct_keys(r.inserts@),
            crate::coord_map::distinct_keys(r.removals@),
            forall|g: GlobalCoords, a: BlockAction|
                #[trigger] r.hits@.contains((g, a)) <==> spec_hit(*old(self), *branch, g, a),
    {
        let mut inserts: Vec<ChunkCoords> = Vec::new();
        let mut removals: Vec<ChunkCoords> = Vec::new();
        let mut hits: Vec<(GlobalCoords, BlockAction)> = Vec::new();
        let ghost pre = *old(self);
        let ghost keys = branch.edits.keys@;
        let n = branch.edits.len();
        let mut i: usize = 0;
        while i < n
            invariant
                branch.wf(),
                keys == branch.edits.keys@,
                n == keys.len(),
                i <= n,
                self.inv(),
                self.table == pre.table,
                self.generator == pre.generator,
                self.hover == pre.hover,
                self.base == pre.base,
                self.light == pre.light,
                pre.inv(),
                forall|c: ChunkCoords|
                    !keys.subrange(0, i as int).contains(c) ==> #[trigger] self.actions.log(c)
                        == pre.actions.log(c),
                forall|c: ChunkCoords|
                    !keys.subrange(0, i as int).contains(c) ==> #[trigger] self.chunks.dom().contains(
                        c,
                    ) == pre.chunks.dom().contains(c),
                forall|c: ChunkCoords|
                    !keys.subrange(0, i as int).contains(c) && pre.chunks.dom().contains(c)
                        ==> #[trigger] self.chunks.blocks_at(c) == pre.chunks.blocks_at(c),
                forall|c: ChunkCoords|
                    keys.subrange(0, i as int).contains(c) ==> spec_merge_post(
                        pre,
                        *self,
                        #[trigger] branch.pending(c),
                        c,
                    ),
                forall|c: ChunkCoords|
                    #[trigger] inserts@.contains(c) <==> (!pre.chunks.dom().contains(c)
                        && self.chunks.dom().contains(c)),
                forall|c: ChunkCoords|
                    #[trigger] removals@.contains(c) <==> (pre.chunks.dom().contains(c)
                        && !self.chunks.dom().contains(c)),
                crate::coord_map::distinct_keys(inserts@),
                crate::coord_map::distinct_keys(removals@),
                forall|g: GlobalCoords, a: BlockAction|
                    #[trigger] hits@.contains((g, a)) <==> (keys.subrange(0, i as int).contains(
                        spec_chunk_coords(g),
                    ) && spec_hit(pre, *branch, g, a)),
            decreases n - i,
        {
            let c = branch.edits.key_at(i);
            let grid = match branch.edits.get(c) {
                Some(grid) => grid,
                None => unreached(),
            };
            proof {
                assert(!keys.subrange(0, i as int).contains(c)) by {
                    if keys.subrange(0, i as int).contains(c) {
                        let j = choose|j: int|
                            0 <= j < i && keys.subrange(0, i as int)[j] == c;
                        assert(keys[j] == c);
                    }
                }
            }
            let ghost snap = *self;
            let ghost inserts_before = inserts@;
            let ghost removals_before = removals@;
            let ghost hits_before = hits@;
            self.merge_chunk(c, grid, &mut inserts, &mut removals, &mut hits);
            let ghost iold = i as int;
            i += 1;
            proof {
                assert(keys.subrange(0, i as int) =~= keys.subrange(0, iold).push(c));
                assert(snap.blocks_or_air(c) == pre.blocks_or_air(c));
                // transfer the per-chunk postcondition from the snapshot to
                // the loop's pre state
                assert(self.actions.log(c) =~= pre.actions.log(c).union_prefer_right(
                    spec_applied(pre.blocks_or_air(c), branch.pending(c)),
                ));
                assert forall|q: ChunkCoords|
                    keys.subrange(0, i as int).contains(q) implies spec_merge_post(
                    pre,
                    *self,
                    #[trigger] branch.pending(q),
                    q,
                ) by {
                    vstd::seq_lib::lemma_seq_contains_after_push(
                        keys.subrange(0, iold),
                        c,
                        q,
                    );
                    if q != c {
                        assert(spec_merge_post(pre, snap, branch.pending(q), q));
                        assert(self.chunks.dom().contains(q) == snap.chunks.dom().contains(q));
                        assert(self.actions.log(q) == snap.actions.log(q));
                        if snap.chunks.dom().contains(q) {
                            assert(self.chunks.blocks_at(q) == snap.chunks.blocks_at(q));
                        }
                    }
                }
                assert forall|q: ChunkCoords|
                    !keys.subrange(0, i as int).contains(q) implies #[trigger] self.actions.log(q)
                    == pre.actions.log(q) by {
                    vstd::seq_lib::lemma_seq_contains_after_push(keys.subrange(0, iold), c, q);
                    assert(snap.actions.log(q) == pre.actions.log(q));
                    assert(self.actions.log(q) == snap.actions.log(q));
                }
                assert forall|q: ChunkCoords|
                    !keys.subrange(0, i as int).contains(q) implies #[trigger] self.chunks.dom().contains(
                    q,
                ) == pre.chunks.dom().contains(q) by {
                    vstd::seq_lib::lemma_seq_contains_after_push(keys.subrange(0, iold), c, q);
                    assert(snap.actions.log(q) == pre.actions.log(q));
                    assert(snap.chunks.dom().contains(q) == pre.chunks.dom().contains(q));
                    assert(self.chunks.dom().contains(q) == snap.chunks.dom().contains(q));
                }
                assert forall|q: ChunkCoords|
                    !keys.subrange(0, i as int).contains(q) && pre.chunks.dom().contains(q)
                    implies #[trigger] self.chunks.blocks_at(q) == pre.chunks.blocks_at(q) by {
                    vstd::seq_lib::lemma_seq_contains_after_push(keys.subrange(0, iold), c, q);
                    assert(snap.actions.log(q) == pre.actions.log(q));
                    assert(snap.chunks.dom().contains(q) == pre.chunks.dom().contains(q));
                    assert(snap.chunks.blocks_at(q) == pre.chunks.blocks_at(q));
                    assert(self.chunks.blocks_at(q) == snap.chunks.blocks_at(q));
                }
                assert forall|q: ChunkCoords| #[trigger]
                    inserts@.contains(q) <==> (!pre.chunks.dom().contains(q)
                    && self.chunks.dom().contains(q)) by {
                    if inserts@ != inserts_before {
                        vstd::seq_lib::lemma_seq_contains_after_push(inserts_before, c, q);
                    }
                }
                assert forall|q: ChunkCoords| #[trigger]
                    removals@.contains(q) <==> (pre.chunks.dom().contains(q)
                    && !self.chunks.dom().contains(q)) by {
                    if removals@ != removals_before {
                        vstd::seq_lib::lemma_seq_contains_after_push(removals_before, c, q);
                    }
                }
                assert(crate::coord_map::distinct_keys(inserts@)) by {
                    if inserts@ != inserts_before {
                        assert(!inserts_before.contains(c));
                        assert forall|a: int, b: int|
                            0 <= a < b < inserts@.len() implies #[trigger] inserts@[a]
                            != #[trigger] inserts@[b] by {
                            if b == inserts@.len() - 1 {
                                assert(inserts_before.contains(inserts_before[a]));
                            }
                        }
                    }
                }
                assert(crate::coord_map::distinct_keys(removals@)) by {
                    if removals@ != removals_before {
                        assert(!removals_before.contains(c));
                        assert forall|a: int, b: int|
                            0 <= a < b < removals@.len() implies #[trigger] removals@[a]
                            != #[trigger] removals@[b] by {
                            if b == removals@.len() - 1 {
                                assert(removals_before.contains(removals_before[a]));
                            }
                        }
                    }
                }
                assert forall|g: GlobalCoords, a: BlockAction| #[trigger]
                    hits@.contains((g, a)) <==> (keys.subrange(0, i as int).contains(
                    spec_chunk_coords(g),
                ) && spec_hit(pre, *branch, g, a)) by {
                    vstd::seq_lib::lemma_seq_contains_after_push(
                        keys.subrange(0, iold),
                        c,
                        spec_chunk_coords(g),
                    );
                }
            }
        }
        proof {
            assert(keys.subrange(0, n as int) =~= keys);
            assert forall|c: ChunkCoords| spec_merge_post(
                pre,
                *self,
                #[trigger] branch.pending(c),
                c,
            ) by {
                if keys.contains(c) {
                    assert(keys.subrange(0, n as int).contains(c));
                } else {
                    assert(branch.pending(c) =~= Map::<LocalCoords, BlockAction>::empty()) by {
                        branch.edits.lemma_view_char(c);
                        if branch.edits@.dom().contains(c) {
                            let j = choose|j: int| 0 <= j < keys.len() && keys[j] == c;
                            assert(keys.contains(c));
                        }
                    }
                    lemma_merged_empty(pre.blocks_or_air(c), branch.pending(c));
                    assert(self.actions.log(c) == pre.actions.log(c));
                    if pre.chunks.dom().contains(c) {
                        pre.chunks.lemma_stored_not_all_air(pre.table, c);
                    }
                }
            }
            assert forall|g: GlobalCoords, a: BlockAction| #[trigger]
                hits@.contains((g, a)) <==> spec_hit(pre, *branch, g, a) by {
                let c = spec_chunk_coords(g);
                if !keys.contains(c) {
                    assert(branch.pending(c) =~= Map::<LocalCoords, BlockAction>::empty()) by {
                        branch.edits.lemma_view_char(c);
                        if branch.edits@.dom().contains(c) {
                            let j = choose|j: int| 0 <= j < keys.len() && keys[j] == c;
                            assert(keys.contains(c));
                        }
                    }
                    lemma_merged_empty(pre.blocks_or_air(c), branch.pending(c));
                }
            }
        }
        MergeOutcome { inserts, removals, hits }
    }
}

/// Whether `c` lies in the one-chunk halo of a mutated voxel or of a newly
/// inserted or removed chunk: the chunks whose meshes one world change can
/// affect.
pub open spec fn spec_in_halo(
    block_updates: Seq<GlobalCoords>,
    inserts: Seq<ChunkCoords>,
    c: ChunkCoords,
) -> bool {
    ||| exists|j: int, o: Offset|
        0 <= j < block_updates.len() && o.within(1) && (#[trigger] block_updates[j].spec_offset(
            o,
        )).wf() && spec_chunk_coords(block_updates[j].spec_offset(o)) == c
    ||| exists|j: int, o: Offset|
        0 <= j < inserts.len() && o.within(1) && (#[trigger] inserts[j].spec_offset(o)) == c
            && inserts[j].x + o.x == c.x && inserts[j].y + o.y == c.y && inserts[j].z + o.z == c.z
}

/// The chunks that own a voxel's 27-cell neighbourhood.
fn voxel_halo(g: GlobalCoords) -> (r: Vec<ChunkCoords>)
    requires
        g.wf(),
    ensures
        forall|c: ChunkCoords|
            #[trigger] r@.contains(c) <==> exists|o: Offset|
                o.within(1) && (#[trigger] g.spec_offset(o)).wf() && spec_chunk_coords(
                    g.spec_offset(o),
                ) == c,
{
    let offsets = crate::coords::cube_offsets(1);
    let mut r: Vec<ChunkCoords> = Vec::new();
    let mut i: usize = 0;
    while i < offsets.len()
        invariant
            g.wf(),
            i <= offsets@.len(),
            forall|o: Offset| #[trigger] offsets@.contains(o) <==> o.within(1),
            forall|c: ChunkCoords|
                #[trigger] r@.contains(c) <==> exists|j: int|
                    0 <= j < i && g.spec_offset(#[trigger] offsets@[j]).wf() && spec_chunk_coords(
                        g.spec_offset(offsets@[j]),
                    ) == c,
        decreases offsets@.len() - i,
    {
        let o = offsets[i];
        let ghost r_before = r@;
        match g.offset(o) {
            Some(n) => {
                let c = crate::coords::chunk_coords(n);
                if !crate::coord_map::contains_coord(&r, c) {
                    r.push(c);
                }
                proof {
                    assert forall|q: ChunkCoords|
                        #[trigger] r@.contains(q) <==> exists|j: int|
                            0 <= j < i + 1 && g.spec_offset(#[trigger] offsets@[j]).wf()
                                && spec_chunk_coords(g.spec_offset(offsets@[j])) == q by {
                        if r@ != r_before {
                            vstd::seq_lib::lemma_seq_contains_after_push(r_before, c, q);
                        }
                        if q == c {
                            assert(g.spec_offset(offsets@[i as int]).wf() && spec_chunk_coords(
                                g.spec_offset(offsets@[i as int]),
                            ) == q);
                        }
                        if r@.contains(q) && q != c {
                            assert(r_before.contains(q));
                        }
                    }
                }
            }
            None => {
                proof {
                    assert forall|q: ChunkCoords|
                        #[trigger] r@.contains(q) <==> exists|j: int|
                            0 <= j < i + 1 && g.spec_offset(#[trigger] offsets@[j]).wf()
                                && spec_chunk_coords(g.spec_offset(offsets@[j])) == q by {
                        if !r@.contains(q) {
                            if exists|j: int|
                                0 <= j < i + 1 && g.spec_offset(#[trigger] offsets@[j]).wf()
                                    && spec_chunk_coords(g.spec_offset(offsets@[j])) == q {
                                let j = choose|j: int|
                                    0 <= j < i + 1 && g.spec_offset(#[trigger] offsets@[j]).wf()
                                        && spec_chunk_coords(g.spec_offset(offsets@[j])) == q;
                                assert(j < i);
                            }
                        }
                    }
                }
            }
        }
        i += 1;
    }
    proof {
        assert forall|c: ChunkCoords|
            #[trigger] r@.contains(c) <==> exists|o: Offset|
                o.within(1) && (#[trigger] g.spec_offset(o)).wf() && spec_chunk_coords(
                    g.spec_offset(o),
                ) == c by {
            if r@.contains(c) {
                let j = choose|j: int|
                    0 <= j < offsets@.len() && g.spec_offset(#[trigger] offsets@[j]).wf()
                        && spec_chunk_coords(g.spec_offset(offsets@[j])) == c;
                assert(offsets@.contains(offsets@[j]));
                let o = offsets@[j];
                assert(o.within(1) && g.spec_offset(o).wf() && spec_chunk_coords(g.spec_offset(o))
                    == c);
            }
            if exists|o: Offset|
                o.within(1) && (#[trigger] g.spec_offset(o)).wf() && spec_chunk_coords(
                    g.spec_offset(o),
                ) == c {
                let o = choose|o: Offset|
                    o.within(1) && (#[trigger] g.spec_offset(o)).wf() && spec_chunk_coords(
                        g.spec_offset(o),
                    ) == c;
                assert(offsets@.contains(o));
                let j = choose|j: int| 0 <= j < offsets@.len() && offsets@[j] == o;
            }
        }
    }
    r
}

/// The chunk coordinates within one chunk of `c0`, as far as they exist.
fn chunk_halo(c0: ChunkCoords) -> (r: Vec<ChunkCoords>)
    ensures
        forall|c: ChunkCoords|
            #[trigger] r@.contains(c) <==> exists|o: Offset|
                o.within(1) && (#[trigger] c0.spec_offset(o)) == c && c0.x + o.x == c.x && c0.y
                    + o.y == c.y && c0.z + o.z == c.z,
{
    let offsets = crate::coords::cube_offsets(1);
    let mut r: Vec<ChunkCoords> = Vec::new();
    let mut i: usize = 0;
    while i < offsets.len()
        invariant
            i <= offsets@.len(),
            forall|o: Offset| #[trigger] offsets@.contains(o) <==> o.within(1),
            forall|c: ChunkCoords|
                #[trigger] r@.contains(c) <==> exists|j: int|
                    0 <= j < i && (#[trigger] c0.spec_offset(offsets@[j])) == c && c0.x
                        + offsets@[j].x == c.x && c0.y + offsets@[j].y == c.y && c0.z
                        + offsets@[j].z == c.z,
        decreases offsets@.len() - i,
    {
        let o = offsets[i];
        let ghost r_before = r@;
        match c0.offset(o) {
            Some(c) => {
                if !crate::coord_map::contains_coord(&r, c) {
                    r.push(c);
                }
                proof {
                    assert forall|q: ChunkCoords|
                        #[trigger] r@.contains(q) <==> exists|j: int|
                            0 <= j < i + 1 && (#[trigger] c0.spec_offset(offsets@[j])) == q && c0.x
                                + offsets@[j].x == q.x && c0.y + offsets@[j].y == q.y && c0.z
                                + offsets@[j].z == q.z by {
                        if r@ != r_before {
                            vstd::seq_lib::lemma_seq_contains_after_push(r_before, c, q);
                        }
                        if q == c {
                            assert((c0.spec_offset(offsets@[i as int])) == q && c0.x + offsets@[
                                i as int].x == q.x && c0.y + offsets@[i as int].y == q.y && c0.z
                                + offsets@[i as int].z == q.z);
                        }
                        if r@.contains(q) && q != c {
                            assert(r_before.contains(q));
                        }
                    }
                }
            }
            None => {
                proof {
                    assert forall|q: ChunkCoords|
                        #[trigger] r@.contains(q) <==> exists|j: int|
                            0 <= j < i + 1 && (#[trigger] c0.spec_offset(offsets@[j])) == q && c0.x
                                + offsets@[j].x == q.x && c0.y + offsets@[j].y == q.y && c0.z
                                + offsets@[j].z == q.z by {
                        if !r@.contains(q) {
                            if exists|j: int|
                                0 <= j < i + 1 && (#[trigger] c0.spec_offset(offsets@[j])) == q
                                    && c0.x + offsets@[j].x == q.x && c0.y + offsets@[j].y == q.y
                                    && c0.z + offsets@[j].z == q.z {
                                let j = choose|j: int|
                                    0 <= j < i + 1 && (#[trigger] c0.spec_offset(offsets@[j])) == q
                                        && c0.x + offsets@[j].x == q.x && c0.y + offsets@[j].y
                                        == q.y && c0.z + offsets@[j].z == q.z;
                                assert(j < i);
                            }
                        }
                    }
                }
            }
        }
        i += 1;
    }
    proof {
        assert forall|c: ChunkCoords|
            #[trigger] r@.contains(c) <==> exists|o: Offset|
                o.within(1) && (#[trigger] c0.spec_offset(o)) == c && c0.x + o.x == c.x && c0.y
                    + o.y == c.y && c0.z + o.z == c.z by {
            if r@.contains(c) {
                let j = choose|j: int|
                    0 <= j < offsets@.len() && (#[trigger] c0.spec_offset(offsets@[j])) == c && c0.x
                        + offsets@[j].x == c.x && c0.y + offsets@[j].y == c.y && c0.z + offsets@[
                        j].z == c.z;
                assert(offsets@.contains(offsets@[j]));
            }
            if exists|o: Offset|
                o.within(1) && (#[trigger] c0.spec_offset(o)) == c && c0.x + o.x == c.x && c0.y
                    + o.y == c.y && c0.z + o.z == c.z {
                let o = choose|o: Offset|
                    o.within(1) && (#[trigger] c0.spec_offset(o)) == c && c0.x + o.x == c.x && c0.y
                        + o.y == c.y && c0.z + o.z == c.z;
                assert(offsets@.contains(o));
                let j = choose|j: int| 0 <= j < offsets@.len() && offsets@[j] == o;
            }
        }
    }
    r
}

/// What one validated edit did to the world: the chunks inserted and
/// removed, the voxels mutated, and the voxels whose light changed.
pub struct EditOutcome {
    pub inserts: Vec<ChunkCoords>,
    pub removals: Vec<ChunkCoords>,
    pub hits: Vec<(GlobalCoords, BlockAction)>,
    pub light_updates: Vec<GlobalCoords>,
}

impl World {
    /// Validates `action` at the voxel `g` reached through `normal`, merges
    /// it (with any dependent destruction) into the world, relights the
    /// affected region, and reports what changed. An invalid action changes
    /// nothing and reports nothing — late client intents are silently
    /// rejected, never an error.
    pub fn edit(&mut self, g: GlobalCoords, normal: Offset, action: BlockAction) -> (r: Option<
        EditOutcome,
    >)
        requires
            old(self).inv(),
            g.wf(),
        ensures
            final(self).inv(),
            final(self).table == old(self).table,
            final(self).generator == old(self).generator,
            final(self).hover == old(self).hover,
            r is Some <==> spec_action_valid(
                old(self).chunks,
                old(self).table,
                g,
                normal,
                action,
            ),
            r is None ==> *final(self) == *old(self),
            r matches Some(out) ==> {
                &&& forall|c: ChunkCoords|
                    spec_merge_post(
                        *old(self),
                        *final(self),
                        #[trigger] spec_branch_edit(old(self).chunks, old(self).table, g, action, c),
                        c,
                    )
                &&& forall|c: ChunkCoords|
                    #[trigger] out.inserts@.contains(c) <==> (!old(self).chunks.dom().contains(c)
                        && final(self).chunks.dom().contains(c))
                &&& forall|c: ChunkCoords|
                    #[trigger] out.removals@.contains(c) <==> (old(self).chunks.dom().contains(c)
                        && !final(self).chunks.dom().contains(c))
                &&& crate::coord_map::distinct_keys(out.inserts@)
                &&& crate::coord_map::distinct_keys(out.removals@)
                &&& forall|i: int|
                    0 <= i < out.light_updates@.len() ==> (#[trigger] out.light_updates@[i]).wf()
                &&& forall|i: int| 0 <= i < out.hits@.len() ==> (#[trigger] out.hits@[i]).0.wf()
            },
    {
        let mut branch = Branch::new();
        if !branch.apply(&self.chunks, g, normal, action, &self.table) {
            return None;
        }
        let outcome = self.merge_branch(&branch);
        let ghost after_merge = *self;
        proof {
            assert forall|i: int| 0 <= i < outcome.hits@.len() implies (#[trigger] outcome.hits@[
                i]).0.wf() by {
                let (hg, ha) = outcome.hits@[i];
                assert(outcome.hits@.contains((hg, ha)));
            }
        }
        let mut light_updates: Vec<GlobalCoords> = Vec::new();
        let margin: i64 = 16;
        if g.x - margin >= -crate::coords::WORLD_EXTENT && g.x + 17 < crate::coords::WORLD_EXTENT
            && g.y - margin >= -crate::coords::WORLD_EXTENT && g.y + 17
            < crate::coords::WORLD_EXTENT && g.z - margin >= -crate::coords::WORLD_EXTENT && g.z
            + 17 < crate::coords::WORLD_EXTENT {
            let lo = GlobalCoords { x: g.x - margin, y: g.y - margin, z: g.z - margin };
            light_updates = self.light.relight_region(&self.chunks, &self.table, lo);
        }
        proof {
            assert(self.chunks == after_merge.chunks && self.actions == after_merge.actions);
            assert forall|c: ChunkCoords|
                spec_merge_post(
                    *old(self),
                    *self,
                    #[trigger] spec_branch_edit(old(self).chunks, old(self).table, g, action, c),
                    c,
                ) by {
                assert(branch.pending(c) =~= spec_branch_edit(
                    old(self).chunks,
                    old(self).table,
                    g,
                    action,
                    c,
                ));
                assert(spec_merge_post(*old(self), after_merge, branch.pending(c), c));
            }
        }
        Some(
            EditOutcome {
                inserts: outcome.inserts,
                removals: outcome.removals,
                hits: outcome.hits,
                light_updates,
            },
        )
    }

    /// The chunks whose meshes the given changes can affect and that need an
    /// update record: every stored chunk in the halo of a mutated voxel or a
    /// freshly inserted chunk, except those already being loaded or unloaded.
    pub fn collect_updates(
        &self,
        block_updates: &Vec<GlobalCoords>,
        inserts: &Vec<ChunkCoords>,
        loads: &Vec<ChunkCoords>,
        unloads: &Vec<ChunkCoords>,
    ) -> (r: Vec<ChunkCoords>)
        requires
            self.inv(),
            forall|i: int| 0 <= i < block_updates@.len() ==> (#[trigger] block_updates@[i]).wf(),
        ensures
            forall|c: ChunkCoords|
                #[trigger] r@.contains(c) <==> (spec_in_halo(block_updates@, inserts@, c)
                    && self.chunks.dom().contains(c) && !loads@.contains(c) && !unloads@.contains(
                    c,
                )),
            crate::coord_map::distinct_keys(r@),
    {
        let mut r: Vec<ChunkCoords> = Vec::new();
        let mut i: usize = 0;
        while i < block_updates.len()
            invariant
                self.inv(),
                i <= block_updates@.len(),
                forall|k: int|
                    0 <= k < block_updates@.len() ==> (#[trigger] block_updates@[k]).wf(),
                forall|c: ChunkCoords|
                    #[trigger] r@.contains(c) <==> ((exists|j: int, o: Offset|
                        0 <= j < i && o.within(1) && (#[trigger] block_updates@[j].spec_offset(
                            o,
                        )).wf() && spec_chunk_coords(block_updates@[j].spec_offset(o)) == c)
                        && self.chunks.dom().contains(c) && !loads@.contains(c)
                        && !unloads@.contains(c)),
                crate::coord_map::distinct_keys(r@),
            decreases block_updates@.len() - i,
        {
            let halo = voxel_halo(block_updates[i]);
            let mut h: usize = 0;
            while h < halo.len()
                invariant
                    self.inv(),
                    i < block_updates@.len(),
                    h <= halo@.len(),
                    forall|k: int|
                        0 <= k < block_updates@.len() ==> (#[trigger] block_updates@[k]).wf(),
                    forall|c: ChunkCoords|
                        #[trigger] halo@.contains(c) <==> exists|o: Offset|
                            o.within(1) && (#[trigger] block_updates@[i as int].spec_offset(
                                o,
                            )).wf() && spec_chunk_coords(block_updates@[i as int].spec_offset(o))
                                == c,
                    forall|c: ChunkCoords|
                        #[trigger] r@.contains(c) <==> (((exists|j: int, o: Offset|
                            0 <= j < i && o.within(1) && (#[trigger] block_updates@[j].spec_offset(
                                o,
                            )).wf() && spec_chunk_coords(block_updates@[j].spec_offset(o)) == c)
                            || (halo@.subrange(0, h as int).contains(c)))
                            && self.chunks.dom().contains(c) && !loads@.contains(c)
                            && !unloads@.contains(c)),
                    crate::coord_map::distinct_keys(r@),
                decreases halo@.len() - h,
            {
                let c = halo[h];
                let ghost r_before = r@;
                if self.chunks.contains(c, &self.table) && !crate::coord_map::contains_coord(
                    loads,
                    c,
                ) && !crate::coord_map::contains_coord(unloads, c)
                    && !crate::coord_map::contains_coord(&r, c) {
                    r.push(c);
                }
                proof {
                    assert(halo@.subrange(0, h + 1) =~= halo@.subrange(0, h as int).push(
                        halo@[h as int],
                    ));
                    assert(halo@.contains(halo@[h as int]));
                    assert forall|q: ChunkCoords|
                        #[trigger] r@.contains(q) <==> (((exists|j: int, o: Offset|
                            0 <= j < i && o.within(1) && (#[trigger] block_updates@[j].spec_offset(
                                o,
                            )).wf() && spec_chunk_coords(block_updates@[j].spec_offset(o)) == q)
                            || (halo@.subrange(0, h + 1).contains(q)))
                            && self.chunks.dom().contains(q) && !loads@.contains(q)
                            && !unloads@.contains(q)) by {
                        if r@ != r_before {
                            vstd::seq_lib::lemma_seq_contains_after_push(r_before, c, q);
                        }
                        vstd::seq_lib::lemma_seq_contains_after_push(
                            halo@.subrange(0, h as int),
                            halo@[h as int],
                            q,
                        );
                    }
                    assert forall|a: int, b: int|
                        0 <= a < b < r@.len() implies #[trigger] r@[a] != #[trigger] r@[b] by {
                        if b == r@.len() - 1 && r@ != r_before {
                            assert(r_before.contains(r_before[a]));
                        }
                    }
                }
                h += 1;
            }
            proof {
                assert(halo@.subrange(0, halo@.len() as int) =~= halo@);
                assert forall|q: ChunkCoords|
                    #[trigger] r@.contains(q) <==> ((exists|j: int, o: Offset|
                        0 <= j < i + 1 && o.within(1) && (#[trigger] block_updates@[j].spec_offset(
                            o,
                        )).wf() && spec_chunk_coords(block_updates@[j].spec_offset(o)) == q)
                        && self.chunks.dom().contains(q) && !loads@.contains(q)
                        && !unloads@.contains(q)) by {
                    if r@.contains(q) {
                    } else {
                        if exists|j: int, o: Offset|
                            0 <= j < i + 1 && o.within(1) && (
                            #[trigger] block_updates@[j].spec_offset(o)).wf()
                                && spec_chunk_coords(block_updates@[j].spec_offset(o)) == q {
                            let (j, o) = choose|j: int, o: Offset|
                                0 <= j < i + 1 && o.within(1) && (
                                #[trigger] block_updates@[j].spec_offset(o)).wf()
                                    && spec_chunk_coords(block_updates@[j].spec_offset(o)) == q;
                            if j == i {
                                assert(halo@.contains(q));
                            }
                        }
                    }
                }
            }
            i += 1;
        }
        let mut k: usize = 0;
        while k < inserts.len()
            invariant
                self.inv(),
                k <= inserts@.len(),
                forall|j: int|
                    0 <= j < block_updates@.len() ==> (#[trigger] block_updates@[j]).wf(),
                forall|c: ChunkCoords|
                    #[trigger] r@.contains(c) <==> ((spec_in_halo(
                        block_updates@,
                        inserts@.subrange(0, k as int),
                        c,
                    )) && self.chunks.dom().contains(c) && !loads@.contains(c)
                        && !unloads@.contains(c)),
                crate::coord_map::distinct_keys(r@),
            decreases inserts@.len() - k,
        {
            let halo = chunk_halo(inserts[k]);
            let mut h: usize = 0;
            while h < halo.len()
                invariant
                    self.inv(),
                    k < inserts@.len(),
                    h <= halo@.len(),
                    forall|c: ChunkCoords|
                        #[trigger] halo@.contains(c) <==> exists|o: Offset|
                            o.within(1) && (#[trigger] inserts@[k as int].spec_offset(o)) == c
                                && inserts@[k as int].x + o.x == c.x && inserts@[k as int].y + o.y
                                == c.y && inserts@[k as int].z + o.z == c.z,
                    forall|c: ChunkCoords|
                        #[trigger] r@.contains(c) <==> ((spec_in_halo(
                            block_updates@,
                            inserts@.subrange(0, k as int),
                            c,
                        ) || halo@.subrange(0, h as int).contains(c))
                            && self.chunks.dom().contains(c) && !loads@.contains(c)
                            && !unloads@.contains(c)),
                    crate::coord_map::distinct_keys(r@),
                decreases halo@.len() - h,
            {
                let c = halo[h];
                let ghost r_before = r@;
                if self.chunks.contains(c, &self.table) && !crate::coord_map::contains_coord(
                    loads,
                    c,
                ) && !crate::coord_map::contains_coord(unloads, c)
                    && !crate::coord_map::contains_coord(&r, c) {
                    r.push(c);
                }
                proof {
                    assert(halo@.subrange(0, h + 1) =~= halo@.subrange(0, h as int).push(
                        halo@[h as int],
                    ));
                    assert(halo@.contains(halo@[h as int]));
                    assert forall|q: ChunkCoords|
                        #[trigger] r@.contains(q) <==> ((spec_in_halo(
                            block_updates@,
                            inserts@.subrange(0, k as int),
                            q,
                        ) || halo@.subrange(0, h + 1).contains(q))
                            && self.chunks.dom().contains(q) && !loads@.contains(q)
                            && !unloads@.contains(q)) by {
                        if r@ != r_before {
                            vstd::seq_lib::lemma_seq_contains_after_push(r_before, c, q);
                        }
                        vstd::seq_lib::lemma_seq_contains_after_push(
                            halo@.subrange(0, h as int),
                            halo@[h as int],
                            q,
                        );
                    }
                    assert forall|a: int, b: int|
                        0 <= a < b < r@.len() implies #[trigger] r@[a] != #[trigger] r@[b] by {
                        if b == r@.len() - 1 && r@ != r_before {
                            assert(r_before.contains(r_before[a]));
                        }
                    }
                }
                h += 1;
            }
            proof {
                assert(halo@.subrange(0, halo@.len() as int) =~= halo@);
                assert(inserts@.subrange(0, k + 1) =~= inserts@.subrange(0, k as int).push(
                    inserts@[k as int],
                ));
                assert forall|q: ChunkCoords|
                    #[trigger] r@.contains(q) <==> (spec_in_halo(
                        block_updates@,
                        inserts@.subrange(0, k + 1),
                        q,
                    ) && self.chunks.dom().contains(q) && !loads@.contains(q)
                        && !unloads@.contains(q)) by {
                    let pre_ins = inserts@.subrange(0, k as int);
                    let cur_ins = inserts@.subrange(0, k + 1);
                    if spec_in_halo(block_updates@, cur_ins, q) && !spec_in_halo(
                        block_updates@,
                        pre_ins,
                        q,
                    ) {
                        let (j, o) = choose|j: int, o: Offset|
                            0 <= j < cur_ins.len() && o.within(1) && (
                            #[trigger] cur_ins[j].spec_offset(o)) == q && cur_ins[j].x + o.x == q.x
                                && cur_ins[j].y + o.y == q.y && cur_ins[j].z + o.z == q.z;
                        assert(j == k);
                        assert(halo@.contains(q));
                    }
                    if halo@.contains(q) {
                        let o = choose|o: Offset|
                            o.within(1) && (#[trigger] inserts@[k as int].spec_offset(o)) == q
                                && inserts@[k as int].x + o.x == q.x && inserts@[k as int].y + o.y
                                == q.y && inserts@[k as int].z + o.z == q.z;
                        assert(cur_ins[k as int] == inserts@[k as int]);
                        assert(spec_in_halo(block_updates@, cur_ins, q));
                    }
                }
            }
            k += 1;
        }
        proof {
            assert(inserts@.subrange(0, inserts@.len() as int) =~= inserts@);
        }
        r
    }
}

/// The first voxel under the crosshair that holds a material block: the
/// hover target among the ordered ray candidates. Every block type here
/// fills its whole voxel, so a material candidate always intersects the ray
/// that produced it.
pub open spec fn spec_hover_find(
    chunks: ChunkStore,
    look: Seq<BlockIntersection>,
) -> Option<BlockIntersection>
    decreases look.len(),
{
    if look.len() == 0 {
        None
    } else if look[0].coords.wf() && chunks.spec_block(look[0].coords) != Block::Air {
        Some(look[0])
    } else {
        spec_hover_find(chunks, look.drop_first())
    }
}

/// A found hover target always has in-world coordinates.
proof fn lemma_hover_find_wf(chunks: ChunkStore, look: Seq<BlockIntersection>)
    ensures
        spec_hover_find(chunks, look) matches Some(h) ==> h.coords.wf(),
    decreases look.len(),
{
    if look.len() > 0 {
        lemma_hover_find_wf(chunks, look.drop_first());
    }
}

/// How the emission order ranks a record after an area change: hover first,
/// then unloads, loads, updates.
pub open spec fn spec_area_rank(e: crate::protocol::ServerEvent) -> int {
    match e {
        crate::protocol::ServerEvent::BlockHovered { .. } => 0,
        crate::protocol::ServerEvent::ChunkUnloaded { .. } => 1,
        crate::protocol::ServerEvent::ChunkLoaded { .. } => 2,
        crate::protocol::ServerEvent::ChunkUpdated { .. } => 3,
        _ => 4,
    }
}

/// What a payload-carrying record promises: a load or update record names a
/// stored chunk and carries that chunk's blocks and light, voxel for voxel.
pub open spec fn spec_record_content(w: World, e: crate::protocol::ServerEvent) -> bool {
    match e {
        crate::protocol::ServerEvent::ChunkLoaded { coords, data, .. } => {
            &&& w.chunks.dom().contains(coords)
            &&& data.wf()
            &&& data.blocks@ == w.chunks.blocks_at(coords)
            &&& forall|l: LocalCoords|
                l.wf() ==> #[trigger] data.light@[l.index()] == w.light.spec_light(
                    crate::coords::spec_global_coords(coords, l),
                )
        },
        crate::protocol::ServerEvent::ChunkUpdated { coords, data, .. } => {
            &&& w.chunks.dom().contains(coords)
            &&& data.wf()
            &&& data.blocks@ == w.chunks.blocks_at(coords)
            &&& forall|l: LocalCoords|
                l.wf() ==> #[trigger] data.light@[l.index()] == w.light.spec_light(
                    crate::coords::spec_global_coords(coords, l),
                )
        },
        _ => true,
    }
}

/// Whether the record stream unloads the chunk at `c`.
pub open spec fn spec_has_unload(evs: Seq<crate::protocol::ServerEvent>, c: ChunkCoords) -> bool {
    exists|i: int|
        0 <= i < evs.len() && #[trigger] evs[i] == (crate::protocol::ServerEvent::ChunkUnloaded {
            coords: c,
        })
}

/// Whether the record stream loads the chunk at `c`.
pub open spec fn spec_has_load(evs: Seq<crate::protocol::ServerEvent>, c: ChunkCoords) -> bool {
    exists|i: int|
        0 <= i < evs.len() && ((#[trigger] evs[i]) matches crate::protocol::ServerEvent::ChunkLoaded {
            coords, ..
        } && coords == c)
}

/// Whether the record stream updates the chunk at `c`.
pub open spec fn spec_has_update(evs: Seq<crate::protocol::ServerEvent>, c: ChunkCoords) -> bool {
    exists|i: int|
        0 <= i < evs.len() && ((
        #[trigger] evs[i]) matches crate::protocol::ServerEvent::ChunkUpdated {
            coords, ..
        } && coords == c)
}

impl World {
    /// The wire payload of the chunk at `c`: its blocks and its light.
    pub fn chunk_payload(&self, c: ChunkCoords) -> (r: crate::protocol::ChunkPayload)
        requires
            self.inv(),
            self.chunks.dom().contains(c),
        ensures
            r.wf(),
            r.blocks@ =~= self.chunks.blocks_at(c),
            forall|l: LocalCoords|
                l.wf() ==> #[trigger] r.light@[l.index()] == self.light.spec_light(
                    crate::coords::spec_global_coords(c, l),
                ),
    {
        let chunk = match self.chunks.get(c, &self.table) {
            Some(chunk) => chunk,
            None => unreached(),
        };
        proof {
            chunk.lemma_wf_len(self.table);
        }
        let mut blocks: Vec<Block> = Vec::new();
        let mut light: Vec<u8> = Vec::new();
        let mut i: usize = 0;
        while i < 4096
            invariant
                self.inv(),
                self.chunks.dom().contains(c),
                chunk.wf(self.table),
                chunk@ == self.chunks.blocks_at(c),
                chunk@.len() == 4096,
                i <= 4096,
                blocks@.len() == i,
                light@.len() == i,
                forall|j: int| 0 <= j < i ==> #[trigger] blocks@[j] == chunk@[j],
                forall|l: LocalCoords|
                    l.wf() && l.index() < i ==> #[trigger] light@[l.index()]
                        == self.light.spec_light(crate::coords::spec_global_coords(c, l)),
            decreases 4096 - i,
        {
            let l = local_from_index(i);
            blocks.push(chunk.block(l, &self.table));
            let g = crate::coords::global_coords(c, l);
            light.push(self.light.light(g));
            proof {
                assert(blocks@[i as int] == chunk@[l.index()]);
                assert forall|q: LocalCoords|
                    q.wf() && q.index() < i + 1 implies #[trigger] light@[q.index()]
                    == self.light.spec_light(crate::coords::spec_global_coords(c, q)) by {
                    if q.index() == i && q != l {
                        LocalCoords::lemma_index_injective(q, l);
                    }
                }
            }
            i += 1;
        }
        crate::protocol::ChunkPayload { blocks, light }
    }

    /// Recomputes the hover target from the ordered ray candidates and
    /// reports a hover record exactly when the target changed.
    pub fn update_hover(&mut self, look: &Vec<BlockIntersection>) -> (ev: Option<
        crate::protocol::ServerEvent,
    >)
        requires
            old(self).inv(),
        ensures
            final(self).inv(),
            final(self).chunks == old(self).chunks,
            final(self).actions == old(self).actions,
            final(self).light == old(self).light,
            final(self).table == old(self).table,
            final(self).generator == old(self).generator,
            final(self).hover == spec_hover_find(old(self).chunks, look@),
            ev is Some <==> final(self).hover != old(self).hover,
            ev matches Some(e) ==> e == (crate::protocol::ServerEvent::BlockHovered {
                coords: match final(self).hover {
                    Some(h) => Some(h.coords),
                    None => None,
                },
            }),
    {
        let mut i: usize = 0;
        let mut found: Option<BlockIntersection> = None;
        proof {
            assert(look@.skip(0) =~= look@);
        }
        while i < look.len()
            invariant_except_break
                self.inv(),
                *self == *old(self),
                i <= look@.len(),
                found is None,
                spec_hover_find(self.chunks, look@) == spec_hover_find(
                    self.chunks,
                    look@.skip(i as int),
                ),
            ensures
                self.inv(),
                *self == *old(self),
                found == spec_hover_find(self.chunks, look@),
            decreases look@.len() - i,
        {
            let cand = look[i];
            proof {
                assert(look@.skip(i as int).len() > 0);
                assert(look@.skip(i as int)[0] == look@[i as int]);
                assert(look@.skip(i as int).drop_first() =~= look@.skip(i + 1));
            }
            let wf_ok = -crate::coords::WORLD_EXTENT <= cand.coords.x && cand.coords.x
                < crate::coords::WORLD_EXTENT && -crate::coords::WORLD_EXTENT <= cand.coords.y
                && cand.coords.y < crate::coords::WORLD_EXTENT && -crate::coords::WORLD_EXTENT
                <= cand.coords.z && cand.coords.z < crate::coords::WORLD_EXTENT;
            if wf_ok && self.chunks.block(cand.coords, &self.table) != Block::Air {
                found = Some(cand);
                break;
            }
            proof {
                if i + 1 >= look@.len() {
                    assert(look@.skip(i + 1) =~= Seq::<BlockIntersection>::empty());
                }
            }
            i += 1;
        }
        proof {
            lemma_hover_find_wf(self.chunks, look@);
        }
        let changed = match (&found, &self.hover) {
            (Some(a), Some(b)) => !(a.coords == b.coords && a.normal == b.normal),
            (None, None) => false,
            _ => true,
        };
        self.hover = found;
        if changed {
            Some(
                crate::protocol::ServerEvent::BlockHovered {
                    coords: match &self.hover {
                        Some(h) => Some(h.coords),
                        None => None,
                    },
                },
            )
        } else {
            None
        }
    }
}

/// Unloading appears in a concatenation where it appears in a part.
proof fn lemma_has_unload_concat(
    a: Seq<crate::protocol::ServerEvent>,
    b: Seq<crate::protocol::ServerEvent>,
    c: ChunkCoords,
)
    ensures
        spec_has_unload(a + b, c) <==> (spec_has_unload(a, c) || spec_has_unload(b, c)),
{
    if spec_has_unload(a, c) {
        let i = choose|i: int|
            0 <= i < a.len() && #[trigger] a[i] == (crate::protocol::ServerEvent::ChunkUnloaded {
                coords: c,
            });
        assert((a + b)[i] == a[i]);
    }
    if spec_has_unload(b, c) {
        let i = choose|i: int|
            0 <= i < b.len() && #[trigger] b[i] == (crate::protocol::ServerEvent::ChunkUnloaded {
                coords: c,
            });
        assert((a + b)[a.len() + i] == b[i]);
    }
    if spec_has_unload(a + b, c) {
        let i = choose|i: int|
            0 <= i < (a + b).len() && #[trigger] (a + b)[i] == (
            crate::protocol::ServerEvent::ChunkUnloaded { coords: c });
        if i < a.len() {
            assert(a[i] == (a + b)[i]);
        } else {
            assert(b[i - a.len()] == (a + b)[i]);
        }
    }
}

/// Loading appears in a concatenation where it appears in a part.
proof fn lemma_has_load_concat(
    a: Seq<crate::protocol::ServerEvent>,
    b: Seq<crate::protocol::ServerEvent>,
    c: ChunkCoords,
)
    ensures
        spec_has_load(a + b, c) <==> (spec_has_load(a, c) || spec_has_load(b, c)),
{
    if spec_has_load(a, c) {
        let i = choose|i: int|
            0 <= i < a.len() && ((#[trigger] a[i]) matches crate::protocol::ServerEvent::ChunkLoaded {
                coords, ..
            } && coords == c);
        assert((a + b)[i] == a[i]);
    }
    if spec_has_load(b, c) {
        let i = choose|i: int|
            0 <= i < b.len() && ((#[trigger] b[i]) matches crate::protocol::ServerEvent::ChunkLoaded {
                coords, ..
            } && coords == c);
        assert((a + b)[a.len() + i] == b[i]);
    }
    if spec_has_load(a + b, c) {
        let i = choose|i: int|
            0 <= i < (a + b).len() && ((#[trigger] (a + b)[i])
                matches crate::protocol::ServerEvent::ChunkLoaded { coords, .. } && coords == c);
        if i < a.len() {
            assert(a[i] == (a + b)[i]);
        } else {
            assert(b[i - a.len()] == (a + b)[i]);
        }
    }
}

/// Updating appears in a concatenation where it appears in a part.
proof fn lemma_has_update_concat(
    a: Seq<crate::protocol::ServerEvent>,
    b: Seq<crate::protocol::ServerEvent>,
    c: ChunkCoords,
)
    ensures
        spec_has_update(a + b, c) <==> (spec_has_update(a, c) || spec_has_update(b, c)),
{
    if spec_has_update(a, c) {
        let i = choose|i: int|
            0 <= i < a.len() && ((
            #[trigger] a[i]) matches crate::protocol::ServerEvent::ChunkUpdated {
                coords, ..
            } && coords == c);
        assert((a + b)[i] == a[i]);
    }
    if spec_has_update(b, c) {
        let i = choose|i: int|
            0 <= i < b.len() && ((
            #[trigger] b[i]) matches crate::protocol::ServerEvent::ChunkUpdated {
                coords, ..
            } && coords == c);
        assert((a + b)[a.len() + i] == b[i]);
    }
    if spec_has_update(a + b, c) {
        let i = choose|i: int|
            0 <= i < (a + b).len() && ((#[trigger] (a + b)[i])
                matches crate::protocol::ServerEvent::ChunkUpdated { coords, .. } && coords == c);
        if i < a.len() {
            assert(a[i] == (a + b)[i]);
        } else {
            assert(b[i - a.len()] == (a + b)[i]);
        }
    }
}

impl World {
    /// Relights every freshly inserted chunk and returns the voxels whose
    /// light changed; with nothing inserted, nothing changes.
    fn relight_inserted(&mut self, inserts: &Vec<ChunkCoords>) -> (r: Vec<GlobalCoords>)
        requires
            old(self).inv(),
        ensures
            final(self).inv(),
            final(self).chunks == old(self).chunks,
            final(self).actions == old(self).actions,
            final(self).table == old(self).table,
            final(self).generator == old(self).generator,
            final(self).hover == old(self).hover,
            final(self).base == old(self).base,
            forall|i: int| 0 <= i < r@.len() ==> (#[trigger] r@[i]).wf(),
            inserts@.len() == 0 ==> r@.len() == 0,
    {
        let mut r: Vec<GlobalCoords> = Vec::new();
        let mut i: usize = 0;
        while i < inserts.len()
            invariant
                self.inv(),
                self.chunks == old(self).chunks,
                self.actions == old(self).actions,
                self.table == old(self).table,
                self.generator == old(self).generator,
                self.hover == old(self).hover,
                self.base == old(self).base,
                i <= inserts@.len(),
                forall|j: int| 0 <= j < r@.len() ==> (#[trigger] r@[j]).wf(),
                inserts@.len() == 0 ==> r@.len() == 0,
            decreases inserts@.len() - i,
        {
            let c = inserts[i];
            let ox = c.x as i64 * 16 - 9;
            let oy = c.y as i64 * 16 - 9;
            let oz = c.z as i64 * 16 - 9;
            if ox >= -crate::coords::WORLD_EXTENT && ox + 33 < crate::coords::WORLD_EXTENT && oy
                >= -crate::coords::WORLD_EXTENT && oy + 33 < crate::coords::WORLD_EXTENT && oz
                >= -crate::coords::WORLD_EXTENT && oz + 33 < crate::coords::WORLD_EXTENT {
                let lo = GlobalCoords { x: ox, y: oy, z: oz };
                let mut changed = self.light.relight_region(&self.chunks, &self.table, lo);
                let mut k: usize = 0;
                while k < changed.len()
                    invariant
                        k <= changed@.len(),
                        forall|j: int| 0 <= j < changed@.len() ==> (#[trigger] changed@[j]).wf(),
                        forall|j: int| 0 <= j < r@.len() ==> (#[trigger] r@[j]).wf(),
                    decreases changed@.len() - k,
                {
                    r.push(changed[k]);
                    k += 1;
                }
            }
            i += 1;
        }
        r
    }

    /// One chunk-unloaded record per coordinate, in order.
    fn build_unloads(&self, coords: &Vec<ChunkCoords>) -> (r: Vec<crate::protocol::ServerEvent>)
        ensures
            r@.len() == coords@.len(),
            forall|j: int|
                0 <= j < r@.len() ==> #[trigger] r@[j] == (
                crate::protocol::ServerEvent::ChunkUnloaded { coords: coords@[j] }),
            forall|c: ChunkCoords| spec_has_unload(r@, c) <==> coords@.contains(c),
    {
        let mut r: Vec<crate::protocol::ServerEvent> = Vec::new();
        let mut i: usize = 0;
        while i < coords.len()
            invariant
                i <= coords@.len(),
                r@.len() == i,
                forall|j: int|
                    0 <= j < i ==> #[trigger] r@[j] == (
                    crate::protocol::ServerEvent::ChunkUnloaded { coords: coords@[j] }),
            decreases coords@.len() - i,
        {
            r.push(crate::protocol::ServerEvent::ChunkUnloaded { coords: coords[i] });
            i += 1;
        }
        proof {
            assert forall|c: ChunkCoords| spec_has_unload(r@, c) <==> coords@.contains(c) by {
                if coords@.contains(c) {
                    let j = choose|j: int| 0 <= j < coords@.len() && coords@[j] == c;
                    assert(r@[j] == (crate::protocol::ServerEvent::ChunkUnloaded { coords: c }));
                }
            }
        }
        r
    }

    /// One chunk-loaded or chunk-updated record per coordinate, carrying that
    /// chunk's payload.
    fn build_payload_events(
        &self,
        coords: &Vec<ChunkCoords>,
        as_updates: bool,
        is_important: bool,
    ) -> (r: Vec<crate::protocol::ServerEvent>)
        requires
            self.inv(),
            forall|j: int|
                0 <= j < coords@.len() ==> self.chunks.dom().contains(#[trigger] coords@[j]),
        ensures
            r@.len() == coords@.len(),
            forall|j: int|
                0 <= j < r@.len() ==> (#[trigger] r@[j]).wf() && if as_updates {
                    r@[j] matches crate::protocol::ServerEvent::ChunkUpdated {
                        coords: c,
                        is_important: f,
                        ..
                    } && c == coords@[j] && f == is_important
                } else {
                    r@[j] matches crate::protocol::ServerEvent::ChunkLoaded {
                        coords: c,
                        is_important: f,
                        ..
                    } && c == coords@[j] && f == is_important
                },
            forall|j: int| 0 <= j < r@.len() ==> spec_record_content(*self, #[trigger] r@[j]),
            forall|c: ChunkCoords|
                spec_has_load(r@, c) <==> (!as_updates && coords@.contains(c)),
            forall|c: ChunkCoords|
                spec_has_update(r@, c) <==> (as_updates && coords@.contains(c)),
    {
        let mut r: Vec<crate::protocol::ServerEvent> = Vec::new();
        let mut i: usize = 0;
        while i < coords.len()
            invariant
                self.inv(),
                forall|j: int|
                    0 <= j < coords@.len() ==> self.chunks.dom().contains(#[trigger] coords@[j]),
                i <= coords@.len(),
                r@.len() == i,
                forall|j: int|
                    0 <= j < i ==> (#[trigger] r@[j]).wf() && if as_updates {
                        r@[j] matches crate::protocol::ServerEvent::ChunkUpdated {
                            coords: c,
                            is_important: f,
                            ..
                        } && c == coords@[j] && f == is_important
                    } else {
                        r@[j] matches crate::protocol::ServerEvent::ChunkLoaded {
                            coords: c,
                            is_important: f,
                            ..
                        } && c == coords@[j] && f == is_important
                    },
                forall|j: int| 0 <= j < i ==> spec_record_content(*self, #[trigger] r@[j]),
            decreases coords@.len() - i,
        {
            let c = coords[i];
            let data = self.chunk_payload(c);
            if as_updates {
                r.push(
                    crate::protocol::ServerEvent::ChunkUpdated { coords: c, data, is_important },
                );
            } else {
                r.push(
                    crate::protocol::ServerEvent::ChunkLoaded { coords: c, data, is_important },
                );
            }
            i += 1;
        }
        proof {
            assert forall|c: ChunkCoords|
                spec_has_load(r@, c) <==> (!as_updates && coords@.contains(c)) by {
                if !as_updates && coords@.contains(c) {
                    let j = choose|j: int| 0 <= j < coords@.len() && coords@[j] == c;
                    assert(r@[j] matches crate::protocol::ServerEvent::ChunkLoaded {
                        coords: cc,
                        ..
                    } && cc == c);
                }
            }
            assert forall|c: ChunkCoords|
                spec_has_update(r@, c) <==> (as_updates && coords@.contains(c)) by {
                if as_updates && coords@.contains(c) {
                    let j = choose|j: int| 0 <= j < coords@.len() && coords@[j] == c;
                    assert(r@[j] matches crate::protocol::ServerEvent::ChunkUpdated {
                        coords: cc,
                        ..
                    } && cc == c);
                }
            }
        }
        r
    }
}

impl World {
    /// Handles a viewer's area change: generates and lights the chunks that
    /// entered the area, then emits — in this order — a hover record if the
    /// target changed, one unload record per stored chunk that left the
    /// area, one load record per stored chunk that entered it, and one
    /// update record per remaining stored chunk in the halo of the changes.
    /// Shrinking the area emits no load and no update records at all.
    pub fn on_area_changed(
        &mut self,
        prev: crate::player::WorldArea,
        curr: crate::player::WorldArea,
        look: &Vec<BlockIntersection>,
    ) -> (events: Vec<crate::protocol::ServerEvent>)
        requires
            old(self).inv(),
            prev.wf(),
            curr.wf(),
        ensures
            final(self).inv(),
            forall|c: ChunkCoords|
                spec_has_unload(events@, c) <==> (prev.spec_contains(c) && !curr.spec_contains(c)
                    && old(self).chunks.dom().contains(c)),
            forall|i: int, j: int|
                0 <= i < j < events@.len() ==> !((#[trigger] events@[i])
                    matches crate::protocol::ServerEvent::ChunkUnloaded { coords: c1 } && (
                #[trigger] events@[j]) matches crate::protocol::ServerEvent::ChunkUnloaded {
                    coords: c2,
                } && c1 == c2),
            forall|c: ChunkCoords|
                spec_has_load(events@, c) <==> (curr.spec_contains(c) && !prev.spec_contains(c)
                    && final(self).chunks.dom().contains(c)),
            forall|c: ChunkCoords|
                spec_has_update(events@, c) ==> (curr.spec_contains(c)
                    && final(self).chunks.dom().contains(c) && !spec_has_load(events@, c)
                    && !spec_has_unload(events@, c)),
            (forall|c: ChunkCoords| curr.spec_contains(c) ==> prev.spec_contains(c)) ==> (forall|
                i: int,
            |
                0 <= i < events@.len() ==> !((#[trigger] events@[i])
                    is ChunkLoaded) && !(events@[i] is ChunkUpdated)),
            forall|i: int, j: int|
                0 <= i < j < events@.len() ==> spec_area_rank(#[trigger] events@[i])
                    <= spec_area_rank(#[trigger] events@[j]),
            forall|i: int| 0 <= i < events@.len() ==> (#[trigger] events@[i]).wf(),
            forall|c: ChunkCoords|
                #[trigger] final(self).chunks.dom().contains(c) <==> (old(
                    self,
                ).chunks.dom().contains(c) || (curr.spec_contains(c) && !prev.spec_contains(c)
                    && !is_all_air(old(self).spec_regenerated(c)))),
            final(self).hover == spec_hover_find(final(self).chunks, look@),
            forall|i: int|
                0 <= i < events@.len() ==> spec_record_content(*final(self), #[trigger] events@[i]),
    {
        let ghost pre = *old(self);
        let pts = curr.points();
        let mut entered: Vec<ChunkCoords> = Vec::new();
        let mut i: usize = 0;
        while i < pts.len()
            invariant
                i <= pts@.len(),
                forall|c: ChunkCoords| #[trigger] pts@.contains(c) <==> curr.spec_contains(c),
                forall|a: int, b: int|
                    0 <= a < b < pts@.len() ==> #[trigger] pts@[a] != #[trigger] pts@[b],
                forall|c: ChunkCoords|
                    #[trigger] entered@.contains(c) <==> (pts@.subrange(0, i as int).contains(c)
                        && !prev.spec_contains(c)),
                crate::coord_map::distinct_keys(entered@),
            decreases pts@.len() - i,
        {
            let p = pts[i];
            let ghost before = entered@;
            if !prev.contains(p) {
                proof {
                    assert(!before.contains(p)) by {
                        if before.contains(p) {
                            let j = choose|j: int|
                                0 <= j < i && pts@.subrange(0, i as int)[j] == p;
                            assert(pts@[j] == p && pts@[i as int] == p);
                        }
                    }
                }
                entered.push(p);
            }
            proof {
                assert(pts@.subrange(0, i + 1) =~= pts@.subrange(0, i as int).push(
                    pts@[i as int],
                ));
                assert forall|q: ChunkCoords|
                    #[trigger] entered@.contains(q) <==> (pts@.subrange(0, i + 1).contains(q)
                        && !prev.spec_contains(q)) by {
                    if entered@ != before {
                        vstd::seq_lib::lemma_seq_contains_after_push(before, p, q);
                    }
                    vstd::seq_lib::lemma_seq_contains_after_push(
                        pts@.subrange(0, i as int),
                        pts@[i as int],
                        q,
                    );
                }
                assert forall|a: int, b: int|
                    0 <= a < b < entered@.len() implies #[trigger] entered@[a]
                    != #[trigger] entered@[b] by {
                    if b == entered@.len() - 1 && entered@ != before {
                        assert(before.contains(before[a]));
                    }
                }
            }
            i += 1;
        }
        proof {
            assert(pts@.subrange(0, pts@.len() as int) =~= pts@);
        }
        let inserts = self.insert_many(&entered);
        proof {
            assert forall|c: ChunkCoords|
                #[trigger] self.chunks.dom().contains(c) <==> (pre.chunks.dom().contains(c) || (
                curr.spec_contains(c) && !prev.spec_contains(c) && !is_all_air(
                    pre.spec_regenerated(c),
                ))) by {
                if inserts@.contains(c) {
                    self.chunks.lemma_stored_not_all_air(self.table, c);
                    assert(self.chunks.blocks_at(c) == pre.spec_regenerated(c));
                    assert(entered@.contains(c));
                    assert(pts@.contains(c));
                }
                if curr.spec_contains(c) && !prev.spec_contains(c) && !pre.chunks.dom().contains(
                    c,
                ) && !is_all_air(pre.spec_regenerated(c)) {
                    assert(pts@.contains(c));
                    assert(entered@.contains(c));
                }
            }
        }
        let block_updates = self.relight_inserted(&inserts);
        let mut loads: Vec<ChunkCoords> = Vec::new();
        let mut li: usize = 0;
        while li < pts.len()
            invariant
                self.inv(),
                li <= pts@.len(),
                forall|c: ChunkCoords| #[trigger] pts@.contains(c) <==> curr.spec_contains(c),
                forall|a: int, b: int|
                    0 <= a < b < pts@.len() ==> #[trigger] pts@[a] != #[trigger] pts@[b],
                forall|c: ChunkCoords|
                    #[trigger] loads@.contains(c) <==> (pts@.subrange(0, li as int).contains(c)
                        && !prev.spec_contains(c) && self.chunks.dom().contains(c)),
                crate::coord_map::distinct_keys(loads@),
            decreases pts@.len() - li,
        {
            let p = pts[li];
            let ghost before = loads@;
            if !prev.contains(p) && self.chunks.contains(p, &self.table) {
                proof {
                    assert(!before.contains(p)) by {
                        if before.contains(p) {
                            let j = choose|j: int|
                                0 <= j < li && pts@.subrange(0, li as int)[j] == p;
                            assert(pts@[j] == p && pts@[li as int] == p);
                        }
                    }
                }
                loads.push(p);
            }
            proof {
                assert(pts@.subrange(0, li + 1) =~= pts@.subrange(0, li as int).push(
                    pts@[li as int],
                ));
                assert forall|q: ChunkCoords|
                    #[trigger] loads@.contains(q) <==> (pts@.subrange(0, li + 1).contains(q)
                        && !prev.spec_contains(q) && self.chunks.dom().contains(q)) by {
                    if loads@ != before {
                        vstd::seq_lib::lemma_seq_contains_after_push(before, p, q);
                    }
                    vstd::seq_lib::lemma_seq_contains_after_push(
                        pts@.subrange(0, li as int),
                        pts@[li as int],
                        q,
                    );
                }
                assert forall|a: int, b: int|
                    0 <= a < b < loads@.len() implies #[trigger] loads@[a]
                    != #[trigger] loads@[b] by {
                    if b == loads@.len() - 1 && loads@ != before {
                        assert(before.contains(before[a]));
                    }
                }
            }
            li += 1;
        }
        let ppts = prev.points();
        let mut unloads: Vec<ChunkCoords> = Vec::new();
        let mut ui: usize = 0;
        while ui < ppts.len()
            invariant
                self.inv(),
                ui <= ppts@.len(),
                forall|c: ChunkCoords| #[trigger] ppts@.contains(c) <==> prev.spec_contains(c),
                forall|a: int, b: int|
                    0 <= a < b < ppts@.len() ==> #[trigger] ppts@[a] != #[trigger] ppts@[b],
                forall|c: ChunkCoords|
                    #[trigger] unloads@.contains(c) <==> (ppts@.subrange(0, ui as int).contains(c)
                        && !curr.spec_contains(c) && self.chunks.dom().contains(c)),
                crate::coord_map::distinct_keys(unloads@),
            decreases ppts@.len() - ui,
        {
            let p = ppts[ui];
            let ghost before = unloads@;
            if !curr.contains(p) && self.chunks.contains(p, &self.table) {
                proof {
                    assert(!before.contains(p)) by {
                        if before.contains(p) {
                            let j = choose|j: int|
                                0 <= j < ui && ppts@.subrange(0, ui as int)[j] == p;
                            assert(ppts@[j] == p && ppts@[ui as int] == p);
                        }
                    }
                }
                unloads.push(p);
            }
            proof {
                assert(ppts@.subrange(0, ui + 1) =~= ppts@.subrange(0, ui as int).push(
                    ppts@[ui as int],
                ));
                assert forall|q: ChunkCoords|
                    #[trigger] unloads@.contains(q) <==> (ppts@.subrange(0, ui + 1).contains(q)
                        && !curr.spec_contains(q) && self.chunks.dom().contains(q)) by {
                    if unloads@ != before {
                        vstd::seq_lib::lemma_seq_contains_after_push(before, p, q);
                    }
                    vstd::seq_lib::lemma_seq_contains_after_push(
                        ppts@.subrange(0, ui as int),
                        ppts@[ui as int],
                        q,
                    );
                }
                assert forall|a: int, b: int|
                    0 <= a < b < unloads@.len() implies #[trigger] unloads@[a]
                    != #[trigger] unloads@[b] by {
                    if b == unloads@.len() - 1 && unloads@ != before {
                        assert(before.contains(before[a]));
                    }
                }
            }
            ui += 1;
        }
        proof {
            assert(ppts@.subrange(0, ppts@.len() as int) =~= ppts@);
        }
        let upd0 = self.collect_updates(&block_updates, &inserts, &loads, &unloads);
        let mut updates: Vec<ChunkCoords> = Vec::new();
        let mut vi: usize = 0;
        while vi < upd0.len()
            invariant
                self.inv(),
                vi <= upd0@.len(),
                forall|c: ChunkCoords|
                    #[trigger] upd0@.contains(c) ==> self.chunks.dom().contains(c),
                forall|a: int, b: int|
                    0 <= a < b < upd0@.len() ==> #[trigger] upd0@[a] != #[trigger] upd0@[b],
                forall|c: ChunkCoords|
                    #[trigger] updates@.contains(c) <==> (upd0@.subrange(0, vi as int).contains(c)
                        && curr.spec_contains(c)),
                crate::coord_map::distinct_keys(updates@),
            decreases upd0@.len() - vi,
        {
            let p = upd0[vi];
            let ghost before = updates@;
            if curr.contains(p) {
                proof {
                    assert(!before.contains(p)) by {
                        if before.contains(p) {
                            let j = choose|j: int|
                                0 <= j < vi && upd0@.subrange(0, vi as int)[j] == p;
                            assert(upd0@[j] == p && upd0@[vi as int] == p);
                        }
                    }
                }
                updates.push(p);
            }
            proof {
                assert(upd0@.subrange(0, vi + 1) =~= upd0@.subrange(0, vi as int).push(
                    upd0@[vi as int],
                ));
                assert forall|q: ChunkCoords|
                    #[trigger] updates@.contains(q) <==> (upd0@.subrange(0, vi + 1).contains(q)
                        && curr.spec_contains(q)) by {
                    if updates@ != before {
                        vstd::seq_lib::lemma_seq_contains_after_push(before, p, q);
                    }
                    vstd::seq_lib::lemma_seq_contains_after_push(
                        upd0@.subrange(0, vi as int),
                        upd0@[vi as int],
                        q,
                    );
                }
                assert forall|a: int, b: int|
                    0 <= a < b < updates@.len() implies #[trigger] updates@[a]
                    != #[trigger] updates@[b] by {
                    if b == updates@.len() - 1 && updates@ != before {
                        assert(before.contains(before[a]));
                    }
                }
            }
            vi += 1;
        }
        proof {
            assert(upd0@.subrange(0, upd0@.len() as int) =~= upd0@);
        }
        let hov = self.update_hover(look);
        let mut events: Vec<crate::protocol::ServerEvent> = Vec::new();
        match hov {
            Some(e) => {
                events.push(e);
            }
            None => {}
        }
        let ghost hov_seq = events@;
        let mut ev_u = self.build_unloads(&unloads);
        let ghost ev_u_seq = ev_u@;
        proof {
            assert forall|j: int|
                0 <= j < loads@.len() implies self.chunks.dom().contains(
                #[trigger] loads@[j],
            ) by {
                assert(loads@.contains(loads@[j]));
            }
            assert forall|j: int|
                0 <= j < updates@.len() implies self.chunks.dom().contains(
                #[trigger] updates@[j],
            ) by {
                assert(updates@.contains(updates@[j]));
                assert(upd0@.contains(updates@[j]));
            }
        }
        let mut ev_l = self.build_payload_events(&loads, false, false);
        let ghost ev_l_seq = ev_l@;
        let mut ev_p = self.build_payload_events(&updates, true, false);
        let ghost ev_p_seq = ev_p@;
        events.append(&mut ev_u);
        events.append(&mut ev_l);
        events.append(&mut ev_p);
        proof {
            let evs = events@;
            assert(evs =~= hov_seq + ev_u_seq + ev_l_seq + ev_p_seq);
            let tail1 = ev_l_seq + ev_p_seq;
            let tail2 = ev_u_seq + tail1;
            assert(evs =~= hov_seq + tail2);
            // the store is unchanged for coordinates outside the new area
            assert forall|c: ChunkCoords|
                !curr.spec_contains(c) implies self.chunks.dom().contains(c)
                == pre.chunks.dom().contains(c) by {
                if inserts@.contains(c) {
                    assert(entered@.contains(c));
                }
            }
            // each segment holds records of one kind only
            assert(forall|i: int|
                0 <= i < hov_seq.len() ==> (#[trigger] hov_seq[i]) is BlockHovered);
            // unload records
            assert forall|c: ChunkCoords|
                spec_has_unload(evs, c) <==> (prev.spec_contains(c) && !curr.spec_contains(c)
                    && pre.chunks.dom().contains(c)) by {
                lemma_has_unload_concat(hov_seq, tail2, c);
                lemma_has_unload_concat(ev_u_seq, tail1, c);
                lemma_has_unload_concat(ev_l_seq, ev_p_seq, c);
                if spec_has_unload(hov_seq, c) {
                    let i = choose|i: int|
                        0 <= i < hov_seq.len() && #[trigger] hov_seq[i] == (
                        crate::protocol::ServerEvent::ChunkUnloaded { coords: c });
                }
                if spec_has_unload(ev_l_seq, c) {
                    let i = choose|i: int|
                        0 <= i < ev_l_seq.len() && #[trigger] ev_l_seq[i] == (
                        crate::protocol::ServerEvent::ChunkUnloaded { coords: c });
                }
                if spec_has_unload(ev_p_seq, c) {
                    let i = choose|i: int|
                        0 <= i < ev_p_seq.len() && #[trigger] ev_p_seq[i] == (
                        crate::protocol::ServerEvent::ChunkUnloaded { coords: c });
                }
            }
            // load records
            assert forall|c: ChunkCoords|
                spec_has_load(evs, c) <==> (curr.spec_contains(c) && !prev.spec_contains(c)
                    && self.chunks.dom().contains(c)) by {
                lemma_has_load_concat(hov_seq, tail2, c);
                lemma_has_load_concat(ev_u_seq, tail1, c);
                lemma_has_load_concat(ev_l_seq, ev_p_seq, c);
                if spec_has_load(hov_seq, c) {
                    let i = choose|i: int|
                        0 <= i < hov_seq.len() && ((
                        #[trigger] hov_seq[i]) matches crate::protocol::ServerEvent::ChunkLoaded {
                            coords, ..
                        } && coords == c);
                }
                if spec_has_load(ev_u_seq, c) {
                    let i = choose|i: int|
                        0 <= i < ev_u_seq.len() && ((
                        #[trigger] ev_u_seq[i]) matches crate::protocol::ServerEvent::ChunkLoaded {
                            coords, ..
                        } && coords == c);
                }
                if spec_has_load(ev_p_seq, c) {
                    let i = choose|i: int|
                        0 <= i < ev_p_seq.len() && ((
                        #[trigger] ev_p_seq[i]) matches crate::protocol::ServerEvent::ChunkLoaded {
                            coords, ..
                        } && coords == c);
                }
            }
            // update records
            assert forall|c: ChunkCoords|
                spec_has_update(evs, c) implies (curr.spec_contains(c)
                    && self.chunks.dom().contains(c) && !spec_has_load(evs, c) && !spec_has_unload(
                    evs,
                    c,
                )) by {
                lemma_has_update_concat(hov_seq, tail2, c);
                lemma_has_update_concat(ev_u_seq, tail1, c);
                lemma_has_update_concat(ev_l_seq, ev_p_seq, c);
                if spec_has_update(hov_seq, c) {
                    let i = choose|i: int|
                        0 <= i < hov_seq.len() && ((
                        #[trigger] hov_seq[i]) matches crate::protocol::ServerEvent::ChunkUpdated {
                            coords, ..
                        } && coords == c);
                }
                if spec_has_update(ev_u_seq, c) {
                    let i = choose|i: int|
                        0 <= i < ev_u_seq.len() && ((
                        #[trigger] ev_u_seq[i]) matches crate::protocol::ServerEvent::ChunkUpdated {
                            coords, ..
                        } && coords == c);
                }
                if spec_has_update(ev_l_seq, c) {
                    let i = choose|i: int|
                        0 <= i < ev_l_seq.len() && ((
                        #[trigger] ev_l_seq[i]) matches crate::protocol::ServerEvent::ChunkUpdated {
                            coords, ..
                        } && coords == c);
                }
                if spec_has_update(evs, c) {
                    assert(updates@.contains(c));
                    assert(upd0@.contains(c));
                    lemma_has_load_concat(hov_seq, tail2, c);
                    lemma_has_load_concat(ev_u_seq, tail1, c);
                    lemma_has_load_concat(ev_l_seq, ev_p_seq, c);
                    lemma_has_unload_concat(hov_seq, tail2, c);
                    lemma_has_unload_concat(ev_u_seq, tail1, c);
                    lemma_has_unload_concat(ev_l_seq, ev_p_seq, c);
                    if spec_has_load(hov_seq, c) {
                        let i = choose|i: int|
                            0 <= i < hov_seq.len() && ((
                            #[trigger] hov_seq[i])
                                matches crate::protocol::ServerEvent::ChunkLoaded {
                                coords,
                                ..
                            } && coords == c);
                    }
                    if spec_has_load(ev_u_seq, c) {
                        let i = choose|i: int|
                            0 <= i < ev_u_seq.len() && ((
                            #[trigger] ev_u_seq[i])
                                matches crate::protocol::ServerEvent::ChunkLoaded {
                                coords,
                                ..
                            } && coords == c);
                    }
                    if spec_has_load(ev_p_seq, c) {
                        let i = choose|i: int|
                            0 <= i < ev_p_seq.len() && ((
                            #[trigger] ev_p_seq[i])
                                matches crate::protocol::ServerEvent::ChunkLoaded {
                                coords,
                                ..
                            } && coords == c);
                    }
                    if spec_has_unload(hov_seq, c) {
                        let i = choose|i: int|
                            0 <= i < hov_seq.len() && #[trigger] hov_seq[i] == (
                            crate::protocol::ServerEvent::ChunkUnloaded { coords: c });
                    }
                    if spec_has_unload(ev_l_seq, c) {
                        let i = choose|i: int|
                            0 <= i < ev_l_seq.len() && #[trigger] ev_l_seq[i] == (
                            crate::protocol::ServerEvent::ChunkUnloaded { coords: c });
                    }
                    if spec_has_unload(ev_p_seq, c) {
                        let i = choose|i: int|
                            0 <= i < ev_p_seq.len() && #[trigger] ev_p_seq[i] == (
                            crate::protocol::ServerEvent::ChunkUnloaded { coords: c });
                    }
                }
            }
            // no two unload records name one chunk
            assert forall|i: int, j: int|
                0 <= i < j < evs.len() implies !((#[trigger] evs[i])
                matches crate::protocol::ServerEvent::ChunkUnloaded { coords: c1 } && (
            #[trigger] evs[j]) matches crate::protocol::ServerEvent::ChunkUnloaded {
                coords: c2,
            } && c1 == c2) by {
                let h = hov_seq.len() as int;
                let u = ev_u_seq.len() as int;
                let l = ev_l_seq.len() as int;
                if evs[i] is ChunkUnloaded && evs[j] is ChunkUnloaded {
                    assert(h <= i < h + u && h <= j < h + u) by {
                        if i < h {
                            assert(evs[i] == hov_seq[i]);
                        } else if i < h + u {
                        } else if i < h + u + l {
                            assert(evs[i] == ev_l_seq[i - h - u]);
                        } else {
                            assert(evs[i] == ev_p_seq[i - h - u - l]);
                        }
                        if j < h {
                            assert(evs[j] == hov_seq[j]);
                        } else if j < h + u {
                        } else if j < h + u + l {
                            assert(evs[j] == ev_l_seq[j - h - u]);
                        } else {
                            assert(evs[j] == ev_p_seq[j - h - u - l]);
                        }
                    }
                    assert(evs[i] == ev_u_seq[i - h]);
                    assert(evs[j] == ev_u_seq[j - h]);
                    assert(unloads@[i - h] != unloads@[j - h]);
                }
            }
            // shrinking emits no load and no update records
            if forall|c: ChunkCoords| curr.spec_contains(c) ==> prev.spec_contains(c) {
                assert(entered@.len() == 0) by {
                    if entered@.len() > 0 {
                        assert(entered@.contains(entered@[0]));
                    }
                }
                assert(inserts@.len() == 0) by {
                    if inserts@.len() > 0 {
                        assert(inserts@.contains(inserts@[0]));
                        assert(entered@.contains(inserts@[0]));
                    }
                }
                assert(loads@.len() == 0) by {
                    if loads@.len() > 0 {
                        assert(loads@.contains(loads@[0]));
                    }
                }
                assert(upd0@.len() == 0) by {
                    if upd0@.len() > 0 {
                        assert(upd0@.contains(upd0@[0]));
                        assert(spec_in_halo(block_updates@, inserts@, upd0@[0]));
                    }
                }
                assert(updates@.len() == 0) by {
                    if updates@.len() > 0 {
                        assert(updates@.contains(updates@[0]));
                        assert(upd0@.contains(updates@[0]));
                    }
                }
                assert forall|i: int|
                    0 <= i < evs.len() implies !((#[trigger] evs[i]) is ChunkLoaded) && !(evs[i]
                    is ChunkUpdated) by {
                    let h = hov_seq.len() as int;
                    let u = ev_u_seq.len() as int;
                    if i < h {
                        assert(evs[i] == hov_seq[i]);
                    } else if i < h + u {
                        assert(evs[i] == ev_u_seq[i - h]);
                    }
                }
            }
            // emission order: hover, unloads, loads, updates
            assert forall|i: int, j: int|
                0 <= i < j < evs.len() implies spec_area_rank(#[trigger] evs[i]) <= spec_area_rank(
                #[trigger] evs[j],
            ) by {
                let h = hov_seq.len() as int;
                let u = ev_u_seq.len() as int;
                let l = ev_l_seq.len() as int;
                assert(spec_area_rank(evs[i]) <= spec_area_rank(evs[j])) by {
                    if i < h {
                        assert(evs[i] == hov_seq[i]);
                    } else if i < h + u {
                        assert(evs[i] == ev_u_seq[i - h]);
                    } else if i < h + u + l {
                        assert(evs[i] == ev_l_seq[i - h - u]);
                    } else {
                        assert(evs[i] == ev_p_seq[i - h - u - l]);
                    }
                    if j < h {
                        assert(evs[j] == hov_seq[j]);
                    } else if j < h + u {
                        assert(evs[j] == ev_u_seq[j - h]);
                    } else if j < h + u + l {
                        assert(evs[j] == ev_l_seq[j - h - u]);
                    } else {
                        assert(evs[j] == ev_p_seq[j - h - u - l]);
                    }
                }
            }
            // every record is well formed and carries its chunk's contents
            assert forall|i: int| 0 <= i < evs.len() implies (#[trigger] evs[i]).wf()
                && spec_record_content(*self, evs[i]) by {
                let h = hov_seq.len() as int;
                let u = ev_u_seq.len() as int;
                let l = ev_l_seq.len() as int;
                if i < h {
                    assert(evs[i] == hov_seq[i]);
                } else if i < h + u {
                    assert(evs[i] == ev_u_seq[i - h]);
                } else if i < h + u + l {
                    assert(evs[i] == ev_l_seq[i - h - u]);
                } else {
                    assert(evs[i] == ev_p_seq[i - h - u - l]);
                }
            }
        }
        events
    }
}

/// The voxel an edit at the hover target `h` mutates: for a placement the
/// neighbour behind the hit face, for a destruction the hit voxel itself;
/// nothing when the placement would leave the addressable world.
pub open spec fn spec_edit_target(h: BlockIntersection, action: BlockAction) -> Option<
    GlobalCoords,
> {
    match action {
        BlockAction::Place(b) => if h.coords.spec_offset(h.normal).wf() {
            Some(h.coords.spec_offset(h.normal))
        } else {
            None
        },
        BlockAction::Destroy => Some(h.coords),
    }
}

/// Whether the world's hover target resolves `action` to a voxel whose edit
/// passes validation.
pub open spec fn spec_edit_valid(w: World, action: BlockAction) -> bool {
    &&& w.hover matches Some(h)
    &&& spec_edit_target(h, action) matches Some(g)
    &&& spec_action_valid(w.chunks, w.table, g, h.normal, action)
}

/// What handling an edit guarantees: the exact unload and load records and
/// their order, the silent no-op when nothing resolves or validates, and the
/// merge postcondition with a fresh hover when the edit applies.
pub open spec fn spec_handle_edit_post(
    pre: World,
    post: World,
    action: BlockAction,
    area: crate::player::WorldArea,
    look: Seq<BlockIntersection>,
    events: Seq<crate::protocol::ServerEvent>,
) -> bool {
    &&& forall|c: ChunkCoords|
        spec_has_unload(events, c) <==> (pre.chunks.dom().contains(c)
            && !post.chunks.dom().contains(c) && area.spec_contains(c))
    &&& forall|c: ChunkCoords|
        spec_has_load(events, c) <==> (!pre.chunks.dom().contains(c)
            && post.chunks.dom().contains(c) && area.spec_contains(c))
    &&& forall|c: ChunkCoords|
        spec_has_update(events, c) ==> post.chunks.dom().contains(c) && area.spec_contains(c)
    &&& forall|i: int, j: int|
        0 <= i < j < events.len() ==> spec_edit_rank(#[trigger] events[i]) <= spec_edit_rank(
            #[trigger] events[j],
        )
    &&& (pre.hover is None ==> post == pre && events.len() == 0)
    &&& (pre.hover is Some && spec_edit_target(pre.hover->Some_0, action) is None ==> post == pre
        && events.len() == 0)
    &&& (pre.hover is Some && spec_edit_target(pre.hover->Some_0, action) is Some
        && !spec_edit_valid(pre, action) ==> post == pre && events.len() == 0)
    &&& (spec_edit_valid(pre, action) ==> ((forall|c: ChunkCoords|
        spec_merge_post(
            pre,
            post,
            #[trigger] spec_branch_edit(
                pre.chunks,
                pre.table,
                spec_edit_target(pre.hover->Some_0, action)->Some_0,
                action,
                c,
            ),
            c,
        )) && post.hover == spec_hover_find(post.chunks, look)))
}

/// How the emission order ranks a record after an edit: hover first, then
/// updates, unloads, loads.
pub open spec fn spec_edit_rank(e: crate::protocol::ServerEvent) -> int {
    match e {
        crate::protocol::ServerEvent::BlockHovered { .. } => 0,
        crate::protocol::ServerEvent::ChunkUpdated { .. } => 1,
        crate::protocol::ServerEvent::ChunkUnloaded { .. } => 2,
        crate::protocol::ServerEvent::ChunkLoaded { .. } => 3,
        _ => 4,
    }
}

/// An intent the world handles, with the per-player context resolved: the
/// viewer's areas and the ordered voxels under the crosshair.
pub enum WorldEvent {
    InitialRenderRequested { area: crate::player::WorldArea, look: Vec<BlockIntersection> },
    WorldAreaChanged {
        prev: crate::player::WorldArea,
        curr: crate::player::WorldArea,
        look: Vec<BlockIntersection>,
    },
    BlockHoverRequested { look: Vec<BlockIntersection> },
    BlockPlaced { block: Block, area: crate::player::WorldArea, look: Vec<BlockIntersection> },
    BlockDestroyed { area: crate::player::WorldArea, look: Vec<BlockIntersection> },
}

impl WorldEvent {
    pub open spec fn wf(self) -> bool {
        match self {
            WorldEvent::InitialRenderRequested { area, .. } => area.wf(),
            WorldEvent::WorldAreaChanged { prev, curr, .. } => prev.wf() && curr.wf(),
            WorldEvent::BlockHoverRequested { .. } => true,
            WorldEvent::BlockPlaced { area, .. } => area.wf(),
            WorldEvent::BlockDestroyed { area, .. } => area.wf(),
        }
    }

    /// Maps a client intent onto the world event it asks for, given the
    /// player's state: a first render request asks for the initial render of
    /// the current area; a position change asks for an area change when the
    /// area moved, else a hover refresh; an orientation change asks for a
    /// hover refresh; the edit intents ask for the matching edit. Every
    /// mapped event carries the player's current crosshair candidates.
    pub fn new(event: &crate::protocol::ClientEvent, player: &crate::player::Player) -> (r: Option<
        WorldEvent,
    >)
        requires
            player.prev.wf(),
            player.curr.wf(),
        ensures
            r is Some,
            r matches Some(ev) ==> ev.wf(),
            event is InitialRenderRequested ==> (r matches Some(ev) && ev
                matches WorldEvent::InitialRenderRequested { area, look } && area == player.curr
                && look@ == player.look@),
            event is PlayerPositionChanged && player.curr != player.prev ==> (r matches Some(ev)
                && ev matches WorldEvent::WorldAreaChanged { prev, curr, look } && prev
                == player.prev && curr == player.curr && look@ == player.look@),
            event is PlayerPositionChanged && player.curr == player.prev ==> (r matches Some(ev)
                && ev matches WorldEvent::BlockHoverRequested { look } && look@ == player.look@),
            event is PlayerOrientationChanged ==> (r matches Some(ev) && ev
                matches WorldEvent::BlockHoverRequested { look } && look@ == player.look@),
            event matches crate::protocol::ClientEvent::BlockPlaced { block: b } ==> (r
                matches Some(ev) && ev matches WorldEvent::BlockPlaced { block, area, look }
                && block == b && area == player.curr && look@ == player.look@),
            event is BlockDestroyed ==> (r matches Some(ev) && ev
                matches WorldEvent::BlockDestroyed { area, look } && area == player.curr && look@
                == player.look@),
    {
        match event {
            crate::protocol::ClientEvent::InitialRenderRequested { .. } => Some(
                WorldEvent::InitialRenderRequested {
                    area: player.curr,
                    look: player.look.clone(),
                },
            ),
            crate::protocol::ClientEvent::PlayerPositionChanged { .. } => {
                if !(player.curr == player.prev) {
                    Some(
                        WorldEvent::WorldAreaChanged {
                            prev: player.prev,
                            curr: player.curr,
                            look: player.look.clone(),
                        },
                    )
                } else {
                    Some(WorldEvent::BlockHoverRequested { look: player.look.clone() })
                }
            }
            crate::protocol::ClientEvent::PlayerOrientationChanged { .. } => Some(
                WorldEvent::BlockHoverRequested { look: player.look.clone() },
            ),
            crate::protocol::ClientEvent::BlockPlaced { block } => Some(
                WorldEvent::BlockPlaced {
                    block: *block,
                    area: player.curr,
                    look: player.look.clone(),
                },
            ),
            crate::protocol::ClientEvent::BlockDestroyed => Some(
                WorldEvent::BlockDestroyed { area: player.curr, look: player.look.clone() },
            ),
        }
    }
}

impl World {
    /// Handles the first render request: generates and lights every chunk of
    /// the viewer's area, recomputes the hover target, and emits one load
    /// record per inserted chunk.
    pub fn on_initial_render(
        &mut self,
        area: crate::player::WorldArea,
        look: &Vec<BlockIntersection>,
    ) -> (events: Vec<crate::protocol::ServerEvent>)
        requires
            old(self).inv(),
            area.wf(),
        ensures
            final(self).inv(),
            forall|c: ChunkCoords|
                spec_has_load(events@, c) <==> (!old(self).chunks.dom().contains(c)
                    && final(self).chunks.dom().contains(c)),
            forall|c: ChunkCoords|
                #[trigger] final(self).chunks.dom().contains(c) <==> (old(
                    self,
                ).chunks.dom().contains(c) || (area.spec_contains(c) && !is_all_air(
                    old(self).spec_regenerated(c),
                ))),
            final(self).hover == spec_hover_find(final(self).chunks, look@),
            forall|i: int| 0 <= i < events@.len() ==> (#[trigger] events@[i]).wf(),
            forall|i: int|
                0 <= i < events@.len() ==> spec_record_content(*final(self), #[trigger] events@[i]),
            forall|i: int|
                0 <= i < events@.len() ==> !((#[trigger] events@[i]) is ChunkUnloaded) && !(
                events@[i] is ChunkUpdated),
    {
        let pts = area.points();
        let inserts = self.insert_many(&pts);
        proof {
            assert forall|c: ChunkCoords|
                #[trigger] self.chunks.dom().contains(c) <==> (old(self).chunks.dom().contains(c)
                    || (area.spec_contains(c) && !is_all_air(old(self).spec_regenerated(c)))) by {
                if inserts@.contains(c) {
                    self.chunks.lemma_stored_not_all_air(self.table, c);
                    assert(self.chunks.blocks_at(c) == old(self).spec_regenerated(c));
                }
                if area.spec_contains(c) && !old(self).chunks.dom().contains(c) && !is_all_air(
                    old(self).spec_regenerated(c),
                ) {
                    assert(pts@.contains(c));
                }
            }
        }
        let _ = self.relight_inserted(&inserts);
        let hov = self.update_hover(look);
        let mut events: Vec<crate::protocol::ServerEvent> = Vec::new();
        match hov {
            Some(e) => {
                events.push(e);
            }
            None => {}
        }
        let ghost hov_seq = events@;
        proof {
            assert forall|j: int|
                0 <= j < inserts@.len() implies self.chunks.dom().contains(
                #[trigger] inserts@[j],
            ) by {
                assert(inserts@.contains(inserts@[j]));
            }
        }
        let mut ev_l = self.build_payload_events(&inserts, false, false);
        let ghost ev_l_seq = ev_l@;
        events.append(&mut ev_l);
        proof {
            let evs = events@;
            assert(evs =~= hov_seq + ev_l_seq);
            assert(forall|i: int|
                0 <= i < hov_seq.len() ==> (#[trigger] hov_seq[i]) is BlockHovered);
            assert forall|c: ChunkCoords|
                spec_has_load(evs, c) <==> (!old(self).chunks.dom().contains(c)
                    && self.chunks.dom().contains(c)) by {
                lemma_has_load_concat(hov_seq, ev_l_seq, c);
                if spec_has_load(hov_seq, c) {
                    let i = choose|i: int|
                        0 <= i < hov_seq.len() && ((
                        #[trigger] hov_seq[i]) matches crate::protocol::ServerEvent::ChunkLoaded {
                            coords, ..
                        } && coords == c);
                }
            }
            assert forall|i: int| 0 <= i < evs.len() implies (#[trigger] evs[i]).wf() && !(evs[i]
                is ChunkUnloaded) && !(evs[i] is ChunkUpdated) && spec_record_content(
                *self,
                evs[i],
            ) by {
                let h = hov_seq.len() as int;
                if i < h {
                    assert(evs[i] == hov_seq[i]);
                } else {
                    assert(evs[i] == ev_l_seq[i - h]);
                }
            }
        }
        events
    }

    /// Handles a hover request alone: recomputes the hover target and emits
    /// a hover record exactly when it changed.
    pub fn on_hover(&mut self, look: &Vec<BlockIntersection>) -> (events: Vec<
        crate::protocol::ServerEvent,
    >)
        requires
            old(self).inv(),
        ensures
            final(self).inv(),
            final(self).chunks == old(self).chunks,
            final(self).actions == old(self).actions,
            final(self).light == old(self).light,
            final(self).hover == spec_hover_find(old(self).chunks, look@),
            events@.len() <= 1,
            events@.len() == 1 ==> events@[0] is BlockHovered,
            events@.len() == 1 <==> final(self).hover != old(self).hover,
            forall|i: int| 0 <= i < events@.len() ==> (#[trigger] events@[i]).wf(),
    {
        let hov = self.update_hover(look);
        let mut events: Vec<crate::protocol::ServerEvent> = Vec::new();
        match hov {
            Some(e) => {
                events.push(e);
            }
            None => {}
        }
        events
    }

    /// Applies a validated edit at the hover target and emits — in this
    /// order — a hover record if the target changed, one update record per
    /// stored chunk whose mesh the edit can affect, one unload record per
    /// chunk the edit emptied, and one load record per chunk the edit
    /// materialized, all within the viewer's area. With no hover target, or
    /// an invalid action, nothing happens: a late intent is not an error.
    pub fn on_edit(
        &mut self,
        action: BlockAction,
        area: crate::player::WorldArea,
        look: &Vec<BlockIntersection>,
    ) -> (events: Vec<crate::protocol::ServerEvent>)
        requires
            old(self).inv(),
            area.wf(),
        ensures
            final(self).inv(),
            forall|i: int| 0 <= i < events@.len() ==> (#[trigger] events@[i]).wf(),
            forall|i: int|
                0 <= i < events@.len() ==> spec_record_content(*final(self), #[trigger] events@[i]),
            spec_handle_edit_post(*old(self), *final(self), action, area, look@, events@),
    {
        let h = match &self.hover {
            Some(h) => *h,
            None => {
                return Vec::new();
            }
        };
        let target = match action {
            BlockAction::Place(_) => match h.coords.offset(h.normal) {
                Some(t) => t,
                None => {
                    proof {
                        assert(spec_edit_target(h, action) is None);
                    }
                    return Vec::new();
                }
            },
            BlockAction::Destroy => h.coords,
        };
        proof {
            assert(spec_edit_target(h, action) == Some(target));
        }
        let out = match self.edit(target, h.normal, action) {
            Some(out) => out,
            None => {
                return Vec::new();
            }
        };
        let ghost mid = *self;
        let mut block_updates: Vec<GlobalCoords> = Vec::new();
        let mut hi: usize = 0;
        while hi < out.hits.len()
            invariant
                hi <= out.hits@.len(),
                forall|j: int| 0 <= j < out.hits@.len() ==> (#[trigger] out.hits@[j]).0.wf(),
                forall|j: int|
                    0 <= j < block_updates@.len() ==> (#[trigger] block_updates@[j]).wf(),
            decreases out.hits@.len() - hi,
        {
            block_updates.push(out.hits[hi].0);
            hi += 1;
        }
        let mut lu: usize = 0;
        while lu < out.light_updates.len()
            invariant
                lu <= out.light_updates@.len(),
                forall|j: int|
                    0 <= j < out.light_updates@.len() ==> (#[trigger] out.light_updates@[j]).wf(),
                forall|j: int|
                    0 <= j < block_updates@.len() ==> (#[trigger] block_updates@[j]).wf(),
            decreases out.light_updates@.len() - lu,
        {
            block_updates.push(out.light_updates[lu]);
            lu += 1;
        }
        let no_halo: Vec<ChunkCoords> = Vec::new();
        let upd0 = self.collect_updates(&block_updates, &no_halo, &out.inserts, &out.removals);
        let mut updates: Vec<ChunkCoords> = Vec::new();
        let mut vi: usize = 0;
        while vi < upd0.len()
            invariant
                self.inv(),
                vi <= upd0@.len(),
                forall|c: ChunkCoords|
                    #[trigger] upd0@.contains(c) ==> self.chunks.dom().contains(c),
                forall|j: int|
                    0 <= j < updates@.len() ==> upd0@.contains(#[trigger] updates@[j])
                        && area.spec_contains(updates@[j]) && self.chunks.dom().contains(
                        updates@[j],
                    ),
            decreases upd0@.len() - vi,
        {
            let p = upd0[vi];
            proof {
                assert(upd0@.contains(upd0@[vi as int]));
            }
            if area.contains(p) {
                let ghost before = updates@;
                updates.push(p);
                proof {
                    assert forall|j: int|
                        0 <= j < updates@.len() implies upd0@.contains(#[trigger] updates@[j])
                        && area.spec_contains(updates@[j]) && self.chunks.dom().contains(
                        updates@[j],
                    ) by {
                        if j < updates@.len() - 1 {
                            assert(updates@[j] == before[j]);
                        }
                    }
                }
            }
            vi += 1;
        }
        let mut unloads: Vec<ChunkCoords> = Vec::new();
        let mut ri: usize = 0;
        while ri < out.removals.len()
            invariant
                self.inv(),
                ri <= out.removals@.len(),
                forall|c: ChunkCoords|
                    #[trigger] out.removals@.contains(c) ==> (mid.chunks.dom().contains(c) == false
                        && old(self).chunks.dom().contains(c)),
                forall|a: int, b: int|
                    0 <= a < b < out.removals@.len() ==> #[trigger] out.removals@[a]
                        != #[trigger] out.removals@[b],
                forall|c: ChunkCoords|
                    #[trigger] unloads@.contains(c) <==> (out.removals@.subrange(
                        0,
                        ri as int,
                    ).contains(c) && area.spec_contains(c)),
            decreases out.removals@.len() - ri,
        {
            let p = out.removals[ri];
            let ghost before = unloads@;
            if area.contains(p) {
                unloads.push(p);
            }
            proof {
                assert(out.removals@.subrange(0, ri + 1) =~= out.removals@.subrange(
                    0,
                    ri as int,
                ).push(out.removals@[ri as int]));
                assert forall|q: ChunkCoords|
                    #[trigger] unloads@.contains(q) <==> (out.removals@.subrange(
                        0,
                        ri + 1,
                    ).contains(q) && area.spec_contains(q)) by {
                    if unloads@ != before {
                        vstd::seq_lib::lemma_seq_contains_after_push(before, p, q);
                    }
                    vstd::seq_lib::lemma_seq_contains_after_push(
                        out.removals@.subrange(0, ri as int),
                        out.removals@[ri as int],
                        q,
                    );
                }
            }
            ri += 1;
        }
        let mut loads: Vec<ChunkCoords> = Vec::new();
        let mut ii: usize = 0;
        while ii < out.inserts.len()
            invariant
                self.inv(),
                ii <= out.inserts@.len(),
                forall|c: ChunkCoords|
                    #[trigger] out.inserts@.contains(c) ==> (mid.chunks.dom().contains(c) && !old(
                        self,
                    ).chunks.dom().contains(c)),
                forall|a: int, b: int|
                    0 <= a < b < out.inserts@.len() ==> #[trigger] out.inserts@[a]
                        != #[trigger] out.inserts@[b],
                forall|c: ChunkCoords|
                    #[trigger] loads@.contains(c) <==> (out.inserts@.subrange(
                        0,
                        ii as int,
                    ).contains(c) && area.spec_contains(c)),
            decreases out.inserts@.len() - ii,
        {
            let p = out.inserts[ii];
            let ghost before = loads@;
            if area.contains(p) {
                loads.push(p);
            }
            proof {
                assert(out.inserts@.subrange(0, ii + 1) =~= out.inserts@.subrange(
                    0,
                    ii as int,
                ).push(out.inserts@[ii as int]));
                assert forall|q: ChunkCoords|
                    #[trigger] loads@.contains(q) <==> (out.inserts@.subrange(0, ii + 1).contains(
                        q,
                    ) && area.spec_contains(q)) by {
                    if loads@ != before {
                        vstd::seq_lib::lemma_seq_contains_after_push(before, p, q);
                    }
                    vstd::seq_lib::lemma_seq_contains_after_push(
                        out.inserts@.subrange(0, ii as int),
                        out.inserts@[ii as int],
                        q,
                    );
                }
            }
            ii += 1;
        }
        proof {
            assert(out.removals@.subrange(0, out.removals@.len() as int) =~= out.removals@);
            assert(out.inserts@.subrange(0, out.inserts@.len() as int) =~= out.inserts@);
        }
        let hov = self.update_hover(look);
        let mut events: Vec<crate::protocol::ServerEvent> = Vec::new();
        match hov {
            Some(e) => {
                events.push(e);
            }
            None => {}
        }
        let ghost hov_seq = events@;
        proof {

            assert forall|j: int|
                0 <= j < loads@.len() implies self.chunks.dom().contains(
                #[trigger] loads@[j],
            ) by {
                assert(loads@.contains(loads@[j]));
                assert(out.inserts@.contains(loads@[j]));
            }
        }
        let mut ev_p = self.build_payload_events(&updates, true, true);
        let ghost ev_p_seq = ev_p@;
        let mut ev_u = self.build_unloads(&unloads);
        let ghost ev_u_seq = ev_u@;
        let mut ev_l = self.build_payload_events(&loads, false, true);
        let ghost ev_l_seq = ev_l@;
        events.append(&mut ev_p);
        events.append(&mut ev_u);
        events.append(&mut ev_l);
        proof {
            let evs = events@;
            assert(evs =~= hov_seq + ev_p_seq + ev_u_seq + ev_l_seq);
            let tail1 = ev_u_seq + ev_l_seq;
            let tail2 = ev_p_seq + tail1;
            assert(evs =~= hov_seq + tail2);
            assert(forall|i: int|
                0 <= i < hov_seq.len() ==> (#[trigger] hov_seq[i]) is BlockHovered);
            assert forall|c: ChunkCoords|
                spec_has_unload(evs, c) <==> (old(self).chunks.dom().contains(c)
                && !self.chunks.dom().contains(c) && area.spec_contains(c)) by {
                if old(self).chunks.dom().contains(c) && !self.chunks.dom().contains(c)
                    && area.spec_contains(c) {
                    assert(out.removals@.contains(c));
                    assert(unloads@.contains(c));
                }
                lemma_has_unload_concat(hov_seq, tail2, c);
                lemma_has_unload_concat(ev_p_seq, tail1, c);
                lemma_has_unload_concat(ev_u_seq, ev_l_seq, c);
                if spec_has_unload(hov_seq, c) {
                    let i = choose|i: int|
                        0 <= i < hov_seq.len() && #[trigger] hov_seq[i] == (
                        crate::protocol::ServerEvent::ChunkUnloaded { coords: c });
                }
                if spec_has_unload(ev_p_seq, c) {
                    let i = choose|i: int|
                        0 <= i < ev_p_seq.len() && #[trigger] ev_p_seq[i] == (
                        crate::protocol::ServerEvent::ChunkUnloaded { coords: c });
                }
                if spec_has_unload(ev_l_seq, c) {
                    let i = choose|i: int|
                        0 <= i < ev_l_seq.len() && #[trigger] ev_l_seq[i] == (
                        crate::protocol::ServerEvent::ChunkUnloaded { coords: c });
                }
                if spec_has_unload(ev_u_seq, c) {
                    assert(unloads@.contains(c));
                    let j = choose|j: int| 0 <= j < unloads@.len() && unloads@[j] == c;
                    assert(out.removals@.contains(c));
                }
            }
            assert forall|c: ChunkCoords|
                spec_has_load(evs, c) <==> (!old(self).chunks.dom().contains(c)
                && self.chunks.dom().contains(c) && area.spec_contains(c)) by {
                if !old(self).chunks.dom().contains(c) && self.chunks.dom().contains(c)
                    && area.spec_contains(c) {
                    assert(out.inserts@.contains(c));
                    assert(loads@.contains(c));
                }
                lemma_has_load_concat(hov_seq, tail2, c);
                lemma_has_load_concat(ev_p_seq, tail1, c);
                lemma_has_load_concat(ev_u_seq, ev_l_seq, c);
                if spec_has_load(hov_seq, c) {
                    let i = choose|i: int|
                        0 <= i < hov_seq.len() && ((
                        #[trigger] hov_seq[i]) matches crate::protocol::ServerEvent::ChunkLoaded {
                            coords, ..
                        } && coords == c);
                }
                if spec_has_load(ev_p_seq, c) {
                    let i = choose|i: int|
                        0 <= i < ev_p_seq.len() && ((
                        #[trigger] ev_p_seq[i]) matches crate::protocol::ServerEvent::ChunkLoaded {
                            coords, ..
                        } && coords == c);
                }
                if spec_has_load(ev_u_seq, c) {
                    let i = choose|i: int|
                        0 <= i < ev_u_seq.len() && ((
                        #[trigger] ev_u_seq[i]) matches crate::protocol::ServerEvent::ChunkLoaded {
                            coords, ..
                        } && coords == c);
                }
                if spec_has_load(ev_l_seq, c) {
                    assert(loads@.contains(c));
                    let j = choose|j: int| 0 <= j < loads@.len() && loads@[j] == c;
                    assert(out.inserts@.contains(c));
                }
            }
            assert forall|c: ChunkCoords|
                spec_has_update(evs, c) implies self.chunks.dom().contains(c)
                && area.spec_contains(c) by {
                lemma_has_update_concat(hov_seq, tail2, c);
                lemma_has_update_concat(ev_p_seq, tail1, c);
                lemma_has_update_concat(ev_u_seq, ev_l_seq, c);
                if spec_has_update(hov_seq, c) {
                    let i = choose|i: int|
                        0 <= i < hov_seq.len() && ((
                        #[trigger] hov_seq[i]) matches crate::protocol::ServerEvent::ChunkUpdated {
                            coords, ..
                        } && coords == c);
                }
                if spec_has_update(ev_u_seq, c) {
                    let i = choose|i: int|
                        0 <= i < ev_u_seq.len() && ((
                        #[trigger] ev_u_seq[i]) matches crate::protocol::ServerEvent::ChunkUpdated {
                            coords, ..
                        } && coords == c);
                }
                if spec_has_update(ev_l_seq, c) {
                    let i = choose|i: int|
                        0 <= i < ev_l_seq.len() && ((
                        #[trigger] ev_l_seq[i]) matches crate::protocol::ServerEvent::ChunkUpdated {
                            coords, ..
                        } && coords == c);
                }
                if spec_has_update(ev_p_seq, c) {
                    assert(updates@.contains(c));
                    let j = choose|j: int| 0 <= j < updates@.len() && updates@[j] == c;
                    assert(upd0@.contains(updates@[j]));
                }
            }
            assert forall|i: int, j: int|
                0 <= i < j < evs.len() implies spec_edit_rank(#[trigger] evs[i]) <= spec_edit_rank(
                #[trigger] evs[j],
            ) by {
                let h = hov_seq.len() as int;
                let p = ev_p_seq.len() as int;
                let u = ev_u_seq.len() as int;
                assert(spec_edit_rank(evs[i]) <= spec_edit_rank(evs[j])) by {
                    if i < h {
                        assert(evs[i] == hov_seq[i]);
                    } else if i < h + p {
                        assert(evs[i] == ev_p_seq[i - h]);
                    } else if i < h + p + u {
                        assert(evs[i] == ev_u_seq[i - h - p]);
                    } else {
                        assert(evs[i] == ev_l_seq[i - h - p - u]);
                    }
                    if j < h {
                        assert(evs[j] == hov_seq[j]);
                    } else if j < h + p {
                        assert(evs[j] == ev_p_seq[j - h]);
                    } else if j < h + p + u {
                        assert(evs[j] == ev_u_seq[j - h - p]);
                    } else {
                        assert(evs[j] == ev_l_seq[j - h - p - u]);
                    }
                }
            }
            assert forall|i: int| 0 <= i < evs.len() implies (#[trigger] evs[i]).wf()
                && spec_record_content(*self, evs[i]) by {
                let h = hov_seq.len() as int;
                let p = ev_p_seq.len() as int;
                let u = ev_u_seq.len() as int;
                if i < h {
                    assert(evs[i] == hov_seq[i]);
                } else if i < h + p {
                    assert(evs[i] == ev_p_seq[i - h]);
                } else if i < h + p + u {
                    assert(evs[i] == ev_u_seq[i - h - p]);
                } else {
                    assert(evs[i] == ev_l_seq[i - h - p - u]);
                }
            }
        }
        events
    }

    /// Dispatches one world event, returning the records to stream out, and
    /// passes each event kind's full guarantee through: what the store holds
    /// afterwards, which records are emitted, in what order, and what they
    /// carry.
    pub fn handle(&mut self, event: &WorldEvent) -> (events: Vec<crate::protocol::ServerEvent>)
        requires
            old(self).inv(),
            event.wf(),
        ensures
            final(self).inv(),
            forall|i: int| 0 <= i < events@.len() ==> (#[trigger] events@[i]).wf(),
            forall|i: int|
                0 <= i < events@.len() ==> spec_record_content(*final(self), #[trigger] events@[i]),
            match *event {
                WorldEvent::InitialRenderRequested { area, look } => {
                    &&& forall|c: ChunkCoords|
                        spec_has_load(events@, c) <==> (!old(self).chunks.dom().contains(c)
                            && final(self).chunks.dom().contains(c))
                    &&& forall|c: ChunkCoords|
                        #[trigger] final(self).chunks.dom().contains(c)
                            <==> (old(self).chunks.dom().contains(c) || (area.spec_contains(c)
                            && !is_all_air(old(self).spec_regenerated(c))))
                    &&& final(self).hover == spec_hover_find(final(self).chunks, look@)
                    &&& forall|i: int|
                        0 <= i < events@.len() ==> !((#[trigger] events@[i]) is ChunkUnloaded)
                            && !(events@[i] is ChunkUpdated)
                },
                WorldEvent::WorldAreaChanged { prev, curr, look } => {
                    &&& forall|c: ChunkCoords|
                        spec_has_unload(events@, c) <==> (prev.spec_contains(c)
                            && !curr.spec_contains(c) && old(self).chunks.dom().contains(c))
                    &&& forall|i: int, j: int|
                        0 <= i < j < events@.len() ==> !((#[trigger] events@[i])
                            matches crate::protocol::ServerEvent::ChunkUnloaded { coords: c1 } && (
                        #[trigger] events@[j])
                            matches crate::protocol::ServerEvent::ChunkUnloaded { coords: c2 }
                            && c1 == c2)
                    &&& forall|c: ChunkCoords|
                        spec_has_load(events@, c) <==> (curr.spec_contains(c)
                            && !prev.spec_contains(c) && final(self).chunks.dom().contains(c))
                    &&& forall|c: ChunkCoords|
                        spec_has_update(events@, c) ==> (curr.spec_contains(c)
                            && final(self).chunks.dom().contains(c) && !spec_has_load(events@, c)
                            && !spec_has_unload(events@, c))
                    &&& (forall|c: ChunkCoords| curr.spec_contains(c) ==> prev.spec_contains(c))
                        ==> (forall|i: int|
                        0 <= i < events@.len() ==> !((#[trigger] events@[i]) is ChunkLoaded) && !(
                        events@[i] is ChunkUpdated))
                    &&& forall|i: int, j: int|
                        0 <= i < j < events@.len() ==> spec_area_rank(#[trigger] events@[i])
                            <= spec_area_rank(#[trigger] events@[j])
                    &&& forall|c: ChunkCoords|
                        #[trigger] final(self).chunks.dom().contains(c)
                            <==> (old(self).chunks.dom().contains(c) || (curr.spec_contains(c)
                            && !prev.spec_contains(c) && !is_all_air(
                            old(self).spec_regenerated(c),
                        )))
                    &&& final(self).hover == spec_hover_find(final(self).chunks, look@)
                },
                WorldEvent::BlockHoverRequested { look } => {
                    &&& final(self).chunks == old(self).chunks
                    &&& final(self).actions == old(self).actions
                    &&& final(self).light == old(self).light
                    &&& final(self).hover == spec_hover_find(old(self).chunks, look@)
                    &&& events@.len() <= 1
                    &&& (events@.len() == 1 <==> final(self).hover != old(self).hover)
                    &&& (events@.len() == 1 ==> events@[0] is BlockHovered)
                },
                WorldEvent::BlockPlaced { block, area, look } => spec_handle_edit_post(
                    *old(self),
                    *final(self),
                    BlockAction::Place(block),
                    area,
                    look@,
                    events@,
                ),
                WorldEvent::BlockDestroyed { area, look } => spec_handle_edit_post(
                    *old(self),
                    *final(self),
                    BlockAction::Destroy,
                    area,
                    look@,
                    events@,
                ),
            },
    {
        match event {
            WorldEvent::InitialRenderRequested { area, look } => self.on_initial_render(
                *area,
                look,
            ),
            WorldEvent::WorldAreaChanged { prev, curr, look } => self.on_area_changed(
                *prev,
                *curr,
                look,
            ),
            WorldEvent::BlockHoverRequested { look } => self.on_hover(look),
            WorldEvent::BlockPlaced { block, area, look } => self.on_edit(
                BlockAction::Place(*block),
                *area,
                look,
            ),
            WorldEvent::BlockDestroyed { area, look } => self.on_edit(
                BlockAction::Destroy,
                *area,
                look,
            ),
        }
    }
}

/// A grid that matches the merge rule voxel by voxel is the merged grid.
proof fn lemma_merged_matches(
    blocks: Seq<Block>,
    prev: Seq<Block>,
    m: Map<LocalCoords, BlockAction>,
)
    requires
        blocks.len() == 4096,
        prev.len() == 4096,
        forall|l: LocalCoords|
            l.wf() ==> #[trigger] blocks[l.index()] == if m.dom().contains(l)
                && prev[l.index()].spec_action_applies(m[l]) {
                Block::spec_apply_unchecked(m[l])
            } else {
                prev[l.index()]
            },
    ensures
        blocks =~= spec_merged(prev, m),
{
    assert forall|i: int| 0 <= i < 4096 implies blocks[i] == spec_merged(prev, m)[i] by {
        crate::action::lemma_index_surjective(i);
        let l = choose|l: LocalCoords| l.wf() && #[trigger] l.index() == i;
        lemma_merged_at(prev, m, l);
    }
}

/// A grid that matches the replay rule voxel by voxel is the replayed grid.
proof fn lemma_replay_matches(
    blocks: Seq<Block>,
    gen: Seq<Block>,
    log: Map<LocalCoords, BlockAction>,
)
    requires
        blocks.len() == 4096,
        gen.len() == 4096,
        forall|l: LocalCoords|
            l.wf() ==> #[trigger] blocks[l.index()] == if log.dom().contains(l) {
                Block::spec_apply_unchecked(log[l])
            } else {
                gen[l.index()]
            },
    ensures
        blocks =~= spec_replayed(gen, log),
{
    assert forall|i: int| 0 <= i < 4096 implies blocks[i] == spec_replayed(gen, log)[i] by {
        crate::action::lemma_index_surjective(i);
        let l = choose|l: LocalCoords| l.wf() && #[trigger] l.index() == i;
        lemma_replayed_at(gen, log, l);
    }
}

} // verus!
