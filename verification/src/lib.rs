//! Simulation core of a small multiplayer world server.
//!
//! The library advances game state once per fixed time step. Each tick
//! processes every connected client session (connection lifecycle, entity
//! binding, fall recovery, stepped-on-cell detection) and then runs one
//! eviction sweep of a time-to-live registry of ephemeral world mutations,
//! reverting every mutation whose deadline has elapsed.

pub mod config;
pub mod posmap;
pub mod registry;
pub mod session;
pub mod tick;
pub mod world;
