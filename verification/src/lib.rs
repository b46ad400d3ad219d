//! Authoritative state store and update-streaming core of a chunked voxel
//! world: block data, chunk storage, edit logging and replay, light
//! propagation, neighbourhood snapshots for meshing, and the wire protocol
//! that streams world diffs to a remote viewer.

pub mod action;
pub mod block;
pub mod chunk;
pub mod coord_map;
pub mod coords;
pub mod count;
pub mod generator;
pub mod gui;
pub mod light;
pub mod mesh;
pub mod player;
pub mod protocol;
pub mod session;
pub mod store;
pub mod variants;
pub mod wire;
pub mod world;
