//! Rules of a voxel village game: grounded pathfinding, room detection,
//! build plans, villager behaviour, recipes, wire formats and saves.
//!
//! Everything here is plain data and plain functions. Rendering, networking,
//! the entity store and file access live outside and hand this crate values.

pub mod blocks;
pub mod cells;
pub mod items;
pub mod npc;
pub mod npc_mover;
pub mod npc_registry;
pub mod ord_map;
pub mod pathfinding;
pub mod plan_claims;
pub mod plan_ghosts;
pub mod plans;
pub mod player_mode;
pub mod protocol;
pub mod ranking;
pub mod recipes;
pub mod registry;
pub mod regrow;
pub mod room_sync;
pub mod rooms;
pub mod save;
pub mod scripting;
pub mod strings;
