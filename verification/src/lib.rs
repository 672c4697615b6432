//! A small harness core for throttled redraws of pixel surfaces.
//!
//! The crate holds the decisions of the harness and none of its I/O: a frame
//! scheduler that accepts or rejects display-refresh ticks against a minimum
//! interval, a registry of drawable surfaces addressed by index, a generator
//! of RGBA pixel buffers, and a reader that walks a byte source in fixed
//! chunks. A host performs the drawing and the reads that the core asks for.
//!
//! All times are whole microseconds.

pub mod generator;
pub mod harness;
pub mod interval_text;
pub mod reader;
pub mod registry;
pub mod scheduler;
