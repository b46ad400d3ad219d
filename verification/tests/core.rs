//! Exercises the coordinate algebra, block rules, chunks, the sparse store,
//! the edit log, and the meshing snapshot on concrete values.

use crustcrab::action::ActionStore;
use crustcrab::block::{Block, BlockAction, BlockTable};
use crustcrab::chunk::Chunk;
use crustcrab::coords::{
    chunk_coords, cube_offsets, global_coords, local_coords, ChunkCoords, GlobalCoords,
    LocalCoords, Offset,
};
use crustcrab::gui::Gui;
use crustcrab::mesh::{ao_level, vertices_for, BlockArea, Corner, Side};
use crustcrab::protocol::ChunkPayload;
use crustcrab::store::ChunkStore;
use crustcrab::variants::Variants;

#[test]
fn coords_round_trip() {
    let g = GlobalCoords::new(5, -33, 1000);
    let c = chunk_coords(g);
    let l = local_coords(g);
    assert_eq!(c, ChunkCoords::new(0, -3, 62));
    assert_eq!(l, LocalCoords::new(5, 15, 8));
    assert_eq!(global_coords(c, l), g);
}

#[test]
fn cube_offsets_radius_one() {
    let offsets = cube_offsets(1);
    assert_eq!(offsets.len(), 27);
    assert!(offsets.contains(&Offset::new(0, 0, 0)));
    assert!(offsets.contains(&Offset::new(-1, 1, -1)));
    assert!(!offsets.contains(&Offset::new(2, 0, 0)));
}

#[test]
fn block_table_defaults() {
    let t = BlockTable::new();
    assert_eq!(t.data(Block::Glowstone).luminance, 15);
    assert!(t.data(Block::Sand).is_opaque);
    assert!(!t.data(Block::GlassCyan).is_opaque);
    assert_eq!(t.data(Block::GlassMagenta).valid_surface, Some(Block::Sand));
    assert_eq!(t.data(Block::Air).luminance, 0);
}

#[test]
fn block_apply_rules() {
    let mut b = Block::Air;
    assert!(b.apply(&BlockAction::Place(Block::Sand)));
    assert_eq!(b, Block::Sand);
    assert!(!b.apply(&BlockAction::Place(Block::Glowstone)));
    assert_eq!(b, Block::Sand);
    assert!(b.apply(&BlockAction::Destroy));
    assert_eq!(b, Block::Air);
    assert!(!b.apply(&BlockAction::Destroy));
}

#[test]
fn chunk_counts_follow_edits() {
    let t = BlockTable::new();
    let mut chunk = Chunk::new(&t);
    assert!(chunk.is_empty(&t));
    assert!(!chunk.is_glowing(&t));
    let l = LocalCoords::new(3, 4, 5);
    assert!(chunk.apply(l, &BlockAction::Place(Block::Glowstone), &t));
    assert!(!chunk.is_empty(&t));
    assert!(chunk.is_glowing(&t));
    assert_eq!(chunk.block(l, &t), Block::Glowstone);
    assert!(chunk.apply(l, &BlockAction::Destroy, &t));
    assert!(chunk.is_empty(&t));
    assert!(!chunk.is_glowing(&t));
}

#[test]
fn chunk_filled_is_material() {
    let t = BlockTable::new();
    let chunk = Chunk::filled(Block::Sand, &t);
    assert!(!chunk.is_empty(&t));
    assert_eq!(chunk.block(LocalCoords::new(0, 0, 0), &t), Block::Sand);
}

#[test]
fn store_returns_air_outside_chunks() {
    let t = BlockTable::new();
    let mut store = ChunkStore::new();
    let c = ChunkCoords::new(2, -1, 0);
    assert!(!store.contains(c, &t));
    assert_eq!(store.block(GlobalCoords::new(40, -16, 5), &t), Block::Air);
    store.insert(c, Chunk::filled(Block::Sand, &t), &t);
    assert!(store.contains(c, &t));
    assert_eq!(store.block(GlobalCoords::new(40, -16, 5), &t), Block::Sand);
    let removed = store.remove(c, &t);
    assert_eq!(removed.block(LocalCoords::new(0, 0, 0), &t), Block::Sand);
    assert!(!store.contains(c, &t));
}

#[test]
fn custom_block_tables_are_checked() {
    let t = BlockTable::new();
    assert!(BlockTable::from_entries(t.entries.clone()).is_some());
    let mut bad = t.entries.clone();
    bad[2].luminance = 200;
    assert!(BlockTable::from_entries(bad).is_none());
    let short = vec![*t.data(Block::Air)];
    assert!(BlockTable::from_entries(short).is_none());
}

#[test]
fn action_store_lists_a_chunk_log() {
    let mut log = ActionStore::new();
    let c = ChunkCoords::new(1, 0, 0);
    assert_eq!(log.actions(c).len(), 0);
    log.insert(GlobalCoords::new(16, 3, 2), BlockAction::Place(Block::Sand));
    log.insert(GlobalCoords::new(17, 3, 2), BlockAction::Destroy);
    log.insert(GlobalCoords::new(16, 3, 2), BlockAction::Destroy);
    let pairs = log.actions(c);
    assert_eq!(pairs.len(), 2);
    assert!(pairs.contains(&(LocalCoords::new(0, 3, 2), BlockAction::Destroy)));
    assert!(pairs.contains(&(LocalCoords::new(1, 3, 2), BlockAction::Destroy)));
}

#[test]
fn action_store_last_write_wins() {
    let mut log = ActionStore::new();
    let g = GlobalCoords::new(17, 0, -3);
    assert_eq!(log.insert(g, BlockAction::Place(Block::Sand)), None);
    assert_eq!(
        log.insert(g, BlockAction::Destroy),
        Some(BlockAction::Place(Block::Sand))
    );
    assert_eq!(log.insert(g, BlockAction::Destroy), Some(BlockAction::Destroy));
}

#[test]
fn variants_cursor_walks_all_indices() {
    let mut it = Variants::new(6);
    let mut seen = Vec::new();
    while let Some(i) = it.next() {
        seen.push(i);
    }
    assert_eq!(seen, vec![0, 1, 2, 3, 4, 5]);
    assert_eq!(it.next(), None);
}

#[test]
fn inventory_selection() {
    let mut gui = Gui::new();
    assert_eq!(gui.inventory.selected_block(), Block::Sand);
    gui.inventory.select(1);
    assert_eq!(gui.inventory.selected_block(), Block::Glowstone);
    gui.inventory.select(100);
    assert_eq!(gui.inventory.selected_block(), Block::Glowstone);
}

#[test]
fn ao_open_corner_is_bright() {
    let area = BlockArea::new();
    assert_eq!(ao_level(&area, Side::Up, Corner::LowerLeft), 3);
}

#[test]
fn ao_both_edges_block_the_corner() {
    // for the up face's lower-left corner the edge cells are left-up and
    // front-up
    let mut area = BlockArea::new();
    area.set(Offset::new(-1, 1, 0), true);
    area.set(Offset::new(0, 1, -1), true);
    assert_eq!(ao_level(&area, Side::Up, Corner::LowerLeft), 0);
}

#[test]
fn ao_counts_each_neighbour() {
    let mut area = BlockArea::new();
    area.set(Offset::new(-1, 1, 0), true);
    assert_eq!(ao_level(&area, Side::Up, Corner::LowerLeft), 2);
    area.set(Offset::new(-1, 1, -1), true);
    assert_eq!(ao_level(&area, Side::Up, Corner::LowerLeft), 1);
}

#[test]
fn store_snapshot_reads_neighbour_opacity() {
    let t = BlockTable::new();
    let mut store = ChunkStore::new();
    store.insert(ChunkCoords::new(0, -1, 0), Chunk::filled(Block::Sand, &t), &t);
    // a voxel on the floor: the cell below is opaque sand, the cell above is
    // unloaded and counts as transparent
    let area = store.block_area(GlobalCoords::new(4, 0, 4), &t);
    assert!(area.is_opaque(Offset::new(0, -1, 0)));
    assert!(!area.is_opaque(Offset::new(0, 1, 0)));
    assert!(!area.is_side_visible(Side::Down));
    assert!(area.is_side_visible(Side::Up));
}

#[test]
fn one_block_meshes_six_faces() {
    let t = BlockTable::new();
    let mut blocks = vec![Block::Air; 4096];
    blocks[0] = Block::Sand;
    let mut light = vec![0u8; 4096];
    light[0] = 7;
    let payload = ChunkPayload { blocks, light };
    let verts = vertices_for(&payload, &t);
    assert_eq!(verts.len(), 36);
    assert!(verts.iter().all(|v| v.ao <= 3));
    assert!(verts.iter().all(|v| v.tex == Block::Sand.index()));
    assert!(verts.iter().all(|v| v.light == 7));
    assert!(verts.iter().all(|v| v.x <= 1 && v.y <= 1 && v.z <= 1));
}

#[test]
fn a_buried_voxel_meshes_nothing() {
    let t = BlockTable::new();
    let payload = ChunkPayload { blocks: vec![Block::Sand; 4096], light: vec![0u8; 4096] };
    let verts = vertices_for(&payload, &t);
    // interior faces are culled; only the chunk-boundary faces remain, and a
    // fully buried voxel contributes none at all: each of the 16x16x16
    // voxels shows at most its outward faces
    assert_eq!(verts.len() % 6, 0);
    assert_eq!(verts.len() / 6, 16 * 16 * 6);
}
