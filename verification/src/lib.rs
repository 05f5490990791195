//! Core engine of a reflex target-shooting game: a bounded population of
//! on-screen targets is spawned at non-overlapping positions, aged and
//! expired over time, and shot at by touch coordinates gated by an audio
//! volume threshold, while a score and a countdown are tracked with
//! underflow-safe arithmetic.
//!
//! The engine is pure bookkeeping: every display side effect is returned to
//! the caller as a [`render::RenderRequest`] value, and every hardware input
//! (clock ticks, touch points, audio samples) comes in as a plain argument.

pub mod game;
pub mod laws;
pub mod render;
pub mod rng;
pub mod target;
