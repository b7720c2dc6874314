//! Core of a grid-based snake game: toroidal movement, growth on apple
//! consumption, a cosmetic per-segment wiggle animation, the pause/run
//! orchestrator, and a binary snapshot codec for persistence.
//!
//! Everything here is deterministic except apple placement, which goes
//! through a single random-number wrapper; rendering, input decoding and
//! file I/O live outside this crate.

pub mod apple;
pub mod file;
pub mod game;
pub mod helpers;
pub mod snek;
