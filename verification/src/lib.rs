//! Deterministic unit simulation with rollback.
//!
//! Circular units steer toward targets, push each other apart and follow a
//! small state machine. Every quantity is a fixed-point integer, so that two
//! peers that apply the same commands to the same world reach the same world,
//! bit for bit. On top of the simulation step stand a snapshot ring, a rollback
//! coordinator that predicts missing commands and replays frames when a
//! prediction turns out wrong, and a checksum to detect peers that diverged.
pub mod component;
pub mod desync;
pub mod fixed;
pub mod input;
pub mod rng;
pub mod rollback;
pub mod roster;
pub mod snapshot;
pub mod tick;
pub mod unit;
pub mod world;
