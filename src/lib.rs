//! Core of a tick-based swarm battle simulation: a small command language,
//! the swarm and bullet state machines, and the world update.
//!
//! All quantities are integers: lengths are in thousandths of a playfield
//! unit and angles in thousandths of a degree.
pub mod geometry;
pub mod error;
pub mod swarm_language;
pub mod entity;
pub mod world;
pub mod rpc;
pub mod server;
