//! A polyphonic keyboard synthesiser: the audio side that turns commands into
//! samples and the control side that turns key strokes into commands.
//!
//! Samples, pitches and levels are single-precision words: a `u32` that holds
//! the bits of the number. The operations on such words come from the caller
//! (see [`arithmetic::Arithmetic`]); everything around them is decided here.

pub mod arithmetic;
pub mod generator;
pub mod effect;
pub mod keys;
pub mod command;
pub mod player;
pub mod mixing;
pub mod region;
pub mod render;
pub mod gui;
pub mod desk;
pub mod screen;
pub mod laws;
pub mod mirror;
pub mod session;
pub mod lasting;
pub mod exact;
pub mod exact_effects;
pub mod exact_desk;
pub mod behaviour;
pub mod shown;
pub mod calls;
