//! The state machines behind the engine's plugins: the frame loop calls
//! them and performs what they decide.

pub mod bake;
pub mod benchmark;
pub mod play;
pub mod record;
pub mod write_timeline;
