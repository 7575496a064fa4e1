//! Procedural, room-by-room dungeon layout. A catalog of hand-authored rooms, each
//! with doors on its edges, is connected door to door into a layout in which no two
//! rooms overlap: open doors near the camera are filled, nearest first, with
//! randomly chosen rooms whose door faces back, and a room whose doors would clash
//! with other open doors is only placed together with bridging rooms that fill both.
pub mod geometry;
pub mod dir;
pub mod catalog;
pub mod room;
pub mod spatial_hash;
pub mod world_state;
pub mod placement;
pub mod generation;
pub mod culling;
pub mod room_index;

pub use catalog::{DoorDef, RoomDef, RoomIndex, RoomType};
pub use dir::Dir;
pub use generation::{generate_batch, CAMERA_SPAWN_DIST, MAX_ROOMS};
pub use geometry::{rects_collide, rects_collide_center, rects_collide_tl, GridPos, Pos};
pub use placement::{find_bridging_room, try_place_room, MAX_BRIDGE_DEPTH};
pub use room::{Door, Room};
pub use room_index::build_room_index;
pub use spatial_hash::SpatialHash;
pub use world_state::{GenerationState, WorldState};
