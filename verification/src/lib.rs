//! Incremental decoder for a line-oriented chat wire protocol, the
//! fixed-capacity receive buffer that feeds it, and the counting bot's
//! reply logic built on top of both.
//!
//! The byte-level grammar and its decode relation live in [`grammar`];
//! [`decode`] implements it over a byte slice and [`render`] writes the
//! canonical encoding back, with the round-trip and incremental-assembly
//! laws proved in [`roundtrip`]. [`buffer`] owns the fill/drain/compact
//! cycle of the receive buffer, and [`bot`] with [`counter`] decide the
//! replies and keep the word tally.

pub mod bot;
pub mod buffer;
pub mod counter;
pub mod decode;
pub mod frame;
pub mod grammar;
pub mod render;
pub mod roundtrip;
pub mod strings;
pub mod text;
