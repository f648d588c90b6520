//! A small framework for simulating turn-based, perfect-information board
//! games under a uniformly random policy, and for turning the resulting
//! trajectory into per-ply, per-agent reward signals.
//!
//! The crate has three layers:
//! - [`board`]: a rectangular grid of small integer cell values with a
//!   run-length query along an arbitrary direction;
//! - [`connect4`]: a Connect-Four domain built on the grid, with gravity
//!   placement, turn alternation and four-in-a-row win detection;
//! - [`domain`]: the `Domain` abstraction and the episode-simulation engine
//!   (random rollout plus reward back-propagation).

pub mod board;
pub mod connect4;
pub mod domain;
