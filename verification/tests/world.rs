//! World scenarios: generation and replay, the no-empty-chunks rule, light
//! propagation after an edit, place-then-destroy, area shrinking, and the
//! bulk writer's disconnect behaviour.

use crustcrab::block::{Block, BlockTable};
use crustcrab::coords::{ChunkCoords, GlobalCoords, LocalCoords, Offset};
use crustcrab::player::WorldArea;
use crustcrab::protocol::ServerEvent;
use crustcrab::session::bulk_outputs;
use crustcrab::protocol::ClientEvent;
use crustcrab::world::{BlockIntersection, World, WorldEvent};

fn new_world() -> World {
    World::new(BlockTable::new())
}

fn up() -> Offset {
    Offset::new(0, 1, 0)
}

fn count_loads(events: &[ServerEvent]) -> usize {
    events.iter().filter(|e| matches!(e, ServerEvent::ChunkLoaded { .. })).count()
}

fn count_unloads(events: &[ServerEvent]) -> usize {
    events.iter().filter(|e| matches!(e, ServerEvent::ChunkUnloaded { .. })).count()
}

fn count_updates(events: &[ServerEvent]) -> usize {
    events.iter().filter(|e| matches!(e, ServerEvent::ChunkUpdated { .. })).count()
}

fn has_load_of(events: &[ServerEvent], c: ChunkCoords) -> bool {
    events.iter().any(
        |e| matches!(e, ServerEvent::ChunkLoaded { coords, .. } if *coords == c),
    )
}

fn has_unload_of(events: &[ServerEvent], c: ChunkCoords) -> bool {
    events.iter().any(
        |e| matches!(e, ServerEvent::ChunkUnloaded { coords } if *coords == c),
    )
}

#[test]
fn initial_render_loads_the_terrain() {
    let mut w = new_world();
    let area = WorldArea::new(ChunkCoords::new(0, 0, 0), 1);
    let look: Vec<BlockIntersection> = Vec::new();
    let events = w.on_initial_render(area, &look);
    // the generator fills every chunk below height zero: the nine chunks of
    // the area's bottom layer
    assert_eq!(count_loads(&events), 9);
    assert_eq!(count_unloads(&events), 0);
    assert!(has_load_of(&events, ChunkCoords::new(0, -1, 0)));
    let t = BlockTable::new();
    assert!(w.chunks.contains(ChunkCoords::new(1, -1, -1), &t));
    assert!(!w.chunks.contains(ChunkCoords::new(0, 0, 0), &t));
}

#[test]
fn place_then_destroy_round_trip() {
    let mut w = new_world();
    let t = BlockTable::new();
    let area = WorldArea::new(ChunkCoords::new(0, 0, 0), 1);
    let look_below = vec![BlockIntersection {
        coords: GlobalCoords::new(0, -1, 0),
        normal: up(),
    }];
    let _ = w.on_initial_render(area, &look_below);
    // place onto the top face of the sand below: the voxel at the origin
    let events = w.on_edit(
        crustcrab::block::BlockAction::Place(Block::Sand),
        area,
        &look_below,
    );
    let origin_chunk = ChunkCoords::new(0, 0, 0);
    assert!(w.chunks.contains(origin_chunk, &t));
    assert_eq!(w.chunks.block(GlobalCoords::new(0, 0, 0), &t), Block::Sand);
    assert!(has_load_of(&events, origin_chunk));
    assert!(count_updates(&events) > 0);
    // destroying the same voxel empties the chunk again: it leaves the store
    // and an unload record is emitted
    let look_at_block = vec![BlockIntersection {
        coords: GlobalCoords::new(0, 0, 0),
        normal: up(),
    }];
    let _ = w.on_hover(&look_at_block);
    let events = w.on_edit(crustcrab::block::BlockAction::Destroy, area, &look_at_block);
    assert!(!w.chunks.contains(origin_chunk, &t));
    assert!(has_unload_of(&events, origin_chunk));
}

#[test]
fn replay_restores_edits_after_unload() {
    let mut w = new_world();
    let t = BlockTable::new();
    let home = WorldArea::new(ChunkCoords::new(0, 0, 0), 1);
    let away = WorldArea::new(ChunkCoords::new(100, 0, 100), 1);
    let look_below = vec![BlockIntersection {
        coords: GlobalCoords::new(0, -1, 0),
        normal: up(),
    }];
    let _ = w.on_initial_render(home, &look_below);
    let _ = w.on_edit(
        crustcrab::block::BlockAction::Place(Block::Glowstone),
        home,
        &look_below,
    );
    assert_eq!(w.chunks.block(GlobalCoords::new(0, 0, 0), &t), Block::Glowstone);
    // walk away: the viewer unloads everything at home, while the store
    // keeps the chunks for the next visit
    let events = w.on_area_changed(home, away, &Vec::new());
    assert!(has_unload_of(&events, ChunkCoords::new(0, 0, 0)));
    // walk back: the edited chunk is streamed again with the edit intact
    let events = w.on_area_changed(away, home, &Vec::new());
    let mut found = false;
    for e in &events {
        if let ServerEvent::ChunkLoaded { coords, data, .. } = e {
            if *coords == ChunkCoords::new(0, 0, 0) {
                assert_eq!(data.blocks[0], Block::Glowstone);
                found = true;
            }
        }
    }
    assert!(found, "the edited chunk must be streamed again with its edit intact");
    assert_eq!(w.chunks.block(GlobalCoords::new(0, 0, 0), &t), Block::Glowstone);
}

#[test]
fn generation_replays_the_logged_actions() {
    let mut w = new_world();
    let t = BlockTable::new();
    // log two edits for a chunk that was never generated; generating it must
    // produce the terrain with exactly those edits replayed onto it
    w.actions.insert(
        GlobalCoords::new(800, -10, 5),
        crustcrab::block::BlockAction::Place(Block::Glowstone),
    );
    w.actions.insert(GlobalCoords::new(801, -10, 5), crustcrab::block::BlockAction::Destroy);
    let chunk = w.generate(ChunkCoords::new(50, -1, 0)).expect("terrain below zero is solid");
    assert_eq!(chunk.block(LocalCoords::new(0, 6, 5), &t), Block::Glowstone);
    assert_eq!(chunk.block(LocalCoords::new(1, 6, 5), &t), Block::Air);
    assert_eq!(chunk.block(LocalCoords::new(2, 6, 5), &t), Block::Sand);
    // generation is idempotent: a second call gives the same replayed chunk
    let again = w.generate(ChunkCoords::new(50, -1, 0)).expect("same inputs, same chunk");
    assert_eq!(again.block(LocalCoords::new(0, 6, 5), &t), Block::Glowstone);
    assert_eq!(again.block(LocalCoords::new(2, 6, 5), &t), Block::Sand);
}

#[test]
fn light_spreads_from_a_placed_glowstone() {
    let mut w = new_world();
    let area = WorldArea::new(ChunkCoords::new(0, 0, 0), 1);
    let look_below = vec![BlockIntersection {
        coords: GlobalCoords::new(0, -1, 0),
        normal: up(),
    }];
    let _ = w.on_initial_render(area, &look_below);
    let _ = w.on_edit(
        crustcrab::block::BlockAction::Place(Block::Glowstone),
        area,
        &look_below,
    );
    // the source carries its own emission; the air beside it one less; light
    // decays by one per step and never exceeds the maximum
    assert_eq!(w.light.light(GlobalCoords::new(0, 0, 0)), 15);
    assert_eq!(w.light.light(GlobalCoords::new(0, 1, 0)), 14);
    assert_eq!(w.light.light(GlobalCoords::new(0, 5, 0)), 10);
    assert_eq!(w.light.light(GlobalCoords::new(3, 1, 0)), 11);
}

#[test]
fn rejected_edit_changes_nothing() {
    let mut w = new_world();
    let t = BlockTable::new();
    let area = WorldArea::new(ChunkCoords::new(0, 0, 0), 1);
    // glass must stand on sand: placing it onto glass is silently rejected
    let look_below = vec![BlockIntersection {
        coords: GlobalCoords::new(0, -1, 0),
        normal: up(),
    }];
    let _ = w.on_initial_render(area, &look_below);
    let _ = w.on_edit(
        crustcrab::block::BlockAction::Place(Block::GlassCyan),
        area,
        &look_below,
    );
    assert_eq!(w.chunks.block(GlobalCoords::new(0, 0, 0), &t), Block::GlassCyan);
    let look_at_glass = vec![BlockIntersection {
        coords: GlobalCoords::new(0, 0, 0),
        normal: up(),
    }];
    let _ = w.on_hover(&look_at_glass);
    let events = w.on_edit(
        crustcrab::block::BlockAction::Place(Block::GlassMagenta),
        area,
        &look_at_glass,
    );
    assert!(events.is_empty());
    assert_eq!(w.chunks.block(GlobalCoords::new(0, 1, 0), &t), Block::Air);
}

#[test]
fn destroying_support_drops_the_glass_above() {
    let mut w = new_world();
    let t = BlockTable::new();
    let area = WorldArea::new(ChunkCoords::new(0, 0, 0), 1);
    let look_below = vec![BlockIntersection {
        coords: GlobalCoords::new(0, -1, 0),
        normal: up(),
    }];
    let _ = w.on_initial_render(area, &look_below);
    // a glass pane standing on the sand floor
    let _ = w.on_edit(
        crustcrab::block::BlockAction::Place(Block::GlassCyan),
        area,
        &look_below,
    );
    assert_eq!(w.chunks.block(GlobalCoords::new(0, 0, 0), &t), Block::GlassCyan);
    // destroying the sand beneath cascades onto the glass it supported
    let _ = w.on_hover(&look_below);
    let _ = w.on_edit(crustcrab::block::BlockAction::Destroy, area, &look_below);
    assert_eq!(w.chunks.block(GlobalCoords::new(0, -1, 0), &t), Block::Air);
    assert_eq!(w.chunks.block(GlobalCoords::new(0, 0, 0), &t), Block::Air);
}

#[test]
fn area_shrink_only_unloads() {
    let mut w = new_world();
    let wide = WorldArea::new(ChunkCoords::new(0, 0, 0), 2);
    let narrow = WorldArea::new(ChunkCoords::new(0, 0, 0), 1);
    let look: Vec<BlockIntersection> = Vec::new();
    let events = w.on_initial_render(wide, &look);
    // two sand layers of a five-by-five footprint
    assert_eq!(count_loads(&events), 50);
    let events = w.on_area_changed(wide, narrow, &look);
    // every stored chunk inside the wide area but outside the narrow one is
    // unloaded exactly once, and nothing is loaded or updated
    assert_eq!(count_unloads(&events), 41);
    assert_eq!(count_loads(&events), 0);
    assert_eq!(count_updates(&events), 0);
    assert!(has_unload_of(&events, ChunkCoords::new(2, -1, 2)));
    assert!(!has_unload_of(&events, ChunkCoords::new(0, -1, 0)));
}

#[test]
fn area_membership_matches_its_points() {
    let area = WorldArea::new(ChunkCoords::new(3, 0, -2), 1);
    let pts = area.points();
    assert_eq!(pts.len(), 27);
    assert!(area.contains(ChunkCoords::new(2, -1, -1)));
    assert!(!area.contains(ChunkCoords::new(5, 0, -2)));
    assert!(pts.contains(&ChunkCoords::new(4, 1, -3)));
}

#[test]
fn light_never_exceeds_the_maximum() {
    let mut w = new_world();
    let area = WorldArea::new(ChunkCoords::new(0, 0, 0), 1);
    let look_below = vec![BlockIntersection {
        coords: GlobalCoords::new(0, -1, 0),
        normal: up(),
    }];
    let _ = w.on_initial_render(area, &look_below);
    let _ = w.on_edit(
        crustcrab::block::BlockAction::Place(Block::Glowstone),
        area,
        &look_below,
    );
    for y in -2..14 {
        for x in -8..8 {
            let v = w.light.light(GlobalCoords::new(x, y, 0));
            assert!(v <= 15);
        }
    }
}

#[test]
fn intents_map_onto_world_events() {
    let player = crustcrab::player::Player {
        prev: WorldArea::new(ChunkCoords::new(0, 0, 0), 1),
        curr: WorldArea::new(ChunkCoords::new(1, 0, 0), 1),
        look: vec![BlockIntersection { coords: GlobalCoords::new(0, -1, 0), normal: up() }],
    };
    // a moved area asks for an area change carrying both areas and the look
    let ev = WorldEvent::new(
        &ClientEvent::PlayerPositionChanged { position: GlobalCoords::new(20, 0, 0) },
        &player,
    );
    assert!(matches!(
        ev,
        Some(WorldEvent::WorldAreaChanged { prev, curr, .. })
            if prev == player.prev && curr == player.curr
    ));
    // an unmoved area asks only for a hover refresh
    let still = crustcrab::player::Player { prev: player.curr, curr: player.curr, look: vec![] };
    let ev = WorldEvent::new(
        &ClientEvent::PlayerPositionChanged { position: GlobalCoords::new(20, 0, 0) },
        &still,
    );
    assert!(matches!(ev, Some(WorldEvent::BlockHoverRequested { .. })));
    // an edit intent carries its block and the current area
    let ev = WorldEvent::new(&ClientEvent::BlockPlaced { block: Block::Glowstone }, &player);
    assert!(matches!(
        ev,
        Some(WorldEvent::BlockPlaced { block: Block::Glowstone, area, .. }) if area == player.curr
    ));
}

#[test]
fn bulk_writer_stops_at_the_disconnect_record() {
    let queue = vec![
        ServerEvent::TimeUpdated { ticks: 1 },
        ServerEvent::ChunkUnloaded { coords: ChunkCoords::new(0, 0, 0) },
        ServerEvent::ClientDisconnected,
        ServerEvent::TimeUpdated { ticks: 2 },
    ];
    let sent = bulk_outputs(queue);
    assert_eq!(sent.len(), 2);
    assert!(matches!(sent[0], ServerEvent::TimeUpdated { ticks: 1 }));
    assert!(matches!(sent[1], ServerEvent::ChunkUnloaded { .. }));
}

#[test]
fn empty_queue_sends_nothing() {
    assert_eq!(bulk_outputs(Vec::new()).len(), 0);
}
