//! Wire round trips: encoding a record and decoding the bytes yields the
//! record back, for every variant of both event types, also with unrelated
//! bytes following the record.

use crustcrab::block::Block;
use crustcrab::coords::{ChunkCoords, GlobalCoords};
use crustcrab::protocol::{
    push_client_event, push_server_event, read_client_event, read_server_event, ChunkPayload,
    ClientEvent, ServerEvent,
};

fn sample_payload() -> ChunkPayload {
    let mut blocks = vec![Block::Air; 4096];
    blocks[0] = Block::Sand;
    blocks[17] = Block::Glowstone;
    blocks[4095] = Block::GlassCyan;
    let mut light = vec![0u8; 4096];
    light[17] = 15;
    light[18] = 14;
    ChunkPayload { blocks, light }
}

fn server_round_trip(e: &ServerEvent) {
    let mut buf: Vec<u8> = Vec::new();
    push_server_event(&mut buf, e);
    let n = buf.len();
    buf.push(0xAB);
    buf.push(0xCD);
    let (decoded, pos) = read_server_event(&buf, 0).expect("a record must decode");
    assert_eq!(pos, n);
    match (e, &decoded) {
        (ServerEvent::TimeUpdated { ticks: a }, ServerEvent::TimeUpdated { ticks: b }) => {
            assert_eq!(a, b)
        }
        (
            ServerEvent::ChunkLoaded { coords: c1, data: d1, is_important: i1 },
            ServerEvent::ChunkLoaded { coords: c2, data: d2, is_important: i2 },
        ) => {
            assert_eq!(c1, c2);
            assert_eq!(i1, i2);
            assert_eq!(d1.blocks, d2.blocks);
            assert_eq!(d1.light, d2.light);
        }
        (
            ServerEvent::ChunkUnloaded { coords: c1 },
            ServerEvent::ChunkUnloaded { coords: c2 },
        ) => assert_eq!(c1, c2),
        (
            ServerEvent::ChunkUpdated { coords: c1, data: d1, is_important: i1 },
            ServerEvent::ChunkUpdated { coords: c2, data: d2, is_important: i2 },
        ) => {
            assert_eq!(c1, c2);
            assert_eq!(i1, i2);
            assert_eq!(d1.blocks, d2.blocks);
            assert_eq!(d1.light, d2.light);
        }
        (
            ServerEvent::BlockHovered { coords: a },
            ServerEvent::BlockHovered { coords: b },
        ) => assert_eq!(a, b),
        (ServerEvent::ClientDisconnected, ServerEvent::ClientDisconnected) => {}
        _ => panic!("decoded record has the wrong variant"),
    }
}

#[test]
fn server_time_updated_round_trip() {
    server_round_trip(&ServerEvent::TimeUpdated { ticks: 123456789012345 });
}

#[test]
fn server_chunk_loaded_round_trip() {
    server_round_trip(&ServerEvent::ChunkLoaded {
        coords: ChunkCoords::new(-7, 3, 2147483647),
        data: sample_payload(),
        is_important: true,
    });
}

#[test]
fn server_chunk_unloaded_round_trip() {
    server_round_trip(&ServerEvent::ChunkUnloaded { coords: ChunkCoords::new(0, -4, 19) });
}

#[test]
fn server_chunk_updated_round_trip() {
    server_round_trip(&ServerEvent::ChunkUpdated {
        coords: ChunkCoords::new(-2147483648, 0, 5),
        data: sample_payload(),
        is_important: false,
    });
}

#[test]
fn server_block_hovered_round_trip() {
    server_round_trip(&ServerEvent::BlockHovered { coords: None });
    server_round_trip(&ServerEvent::BlockHovered {
        coords: Some(GlobalCoords::new(-1, 0, 34359738367)),
    });
}

#[test]
fn server_disconnected_round_trip() {
    server_round_trip(&ServerEvent::ClientDisconnected);
}

fn client_round_trip(e: &ClientEvent) {
    let mut buf: Vec<u8> = Vec::new();
    push_client_event(&mut buf, e);
    let n = buf.len();
    buf.push(0x42);
    let (decoded, pos) = read_client_event(&buf, 0).expect("a record must decode");
    assert_eq!(pos, n);
    match (e, &decoded) {
        (
            ClientEvent::InitialRenderRequested { position: a },
            ClientEvent::InitialRenderRequested { position: b },
        ) => assert_eq!(a, b),
        (
            ClientEvent::PlayerPositionChanged { position: a },
            ClientEvent::PlayerPositionChanged { position: b },
        ) => assert_eq!(a, b),
        (
            ClientEvent::PlayerOrientationChanged { yaw_bits: y1, pitch_bits: p1 },
            ClientEvent::PlayerOrientationChanged { yaw_bits: y2, pitch_bits: p2 },
        ) => {
            assert_eq!(y1, y2);
            assert_eq!(p1, p2);
        }
        (ClientEvent::BlockPlaced { block: a }, ClientEvent::BlockPlaced { block: b }) => {
            assert_eq!(a, b)
        }
        (ClientEvent::BlockDestroyed, ClientEvent::BlockDestroyed) => {}
        _ => panic!("decoded record has the wrong variant"),
    }
}

#[test]
fn client_events_round_trip() {
    client_round_trip(&ClientEvent::InitialRenderRequested {
        position: GlobalCoords::new(1, -2, 3),
    });
    client_round_trip(&ClientEvent::PlayerPositionChanged {
        position: GlobalCoords::new(-100, 50, 0),
    });
    client_round_trip(&ClientEvent::PlayerOrientationChanged {
        yaw_bits: 0xDEADBEEF,
        pitch_bits: 7,
    });
    client_round_trip(&ClientEvent::BlockPlaced { block: Block::GlassMagenta });
    client_round_trip(&ClientEvent::BlockDestroyed);
}

#[test]
fn two_records_decode_in_sequence() {
    let a = ServerEvent::TimeUpdated { ticks: 9 };
    let b = ServerEvent::ChunkUnloaded { coords: ChunkCoords::new(1, 2, 3) };
    let mut buf: Vec<u8> = Vec::new();
    push_server_event(&mut buf, &a);
    push_server_event(&mut buf, &b);
    let (first, p1) = read_server_event(&buf, 0).expect("first record");
    assert!(matches!(first, ServerEvent::TimeUpdated { ticks: 9 }));
    let (second, p2) = read_server_event(&buf, p1).expect("second record");
    assert!(matches!(
        second,
        ServerEvent::ChunkUnloaded { coords } if coords == ChunkCoords::new(1, 2, 3)
    ));
    assert_eq!(p2, buf.len());
}

#[test]
fn an_unknown_tag_does_not_decode() {
    let buf = vec![200u8, 0, 0, 0, 0, 0, 0, 0, 0, 0];
    assert!(read_server_event(&buf, 0).is_none());
    assert!(read_client_event(&buf, 0).is_none());
}

#[test]
fn a_truncated_record_does_not_decode() {
    let mut buf: Vec<u8> = Vec::new();
    push_server_event(&mut buf, &ServerEvent::TimeUpdated { ticks: 55 });
    buf.pop();
    assert!(read_server_event(&buf, 0).is_none());
}
