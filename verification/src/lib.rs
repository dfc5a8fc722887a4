//! Frame-exact logic of a physics recording engine: command-line modes,
//! the deterministic dice, timeline capture and playback, video frame
//! bookkeeping and the integer geometry of spawned worlds.

pub mod engine;
pub mod key_order;
pub mod modes;
pub mod plugins;
pub mod timeline;
pub mod world_objects;
