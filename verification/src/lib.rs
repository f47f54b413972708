//! Bit-level field packing into fixed byte buffers.
//!
//! The heart of the crate is the engine in [`engine`]: it reads and writes
//! integer fields of 1 to 64 bits at arbitrary bit offsets in a byte buffer,
//! with MSB-first bit numbering (bit 0 is the most significant bit of byte 0).
//! [`model`] gives the mathematical model the engine is verified against;
//! [`parse`] is the trait a packed type implements to get field accessors;
//! [`util`] holds helpers for layout tooling built on the engine.

pub mod engine;

pub mod model;

pub mod parse;

pub mod util;
