//! A single-writer ring of fixed-width node records laid out in one flat
//! byte region, together with the small plugin shell that feeds it.
//!
//! The region starts with two little-endian 64-bit counters, `head` and
//! `tail`, followed by `capacity` record slots.  One producer appends records
//! and evicts the oldest one when the ring is full; any number of readers
//! decode the slots between `tail` and `head`.

pub mod codec;
pub mod layout;
pub mod plugin;
pub mod ring;
pub mod segment;

pub use crate::codec::{Record, IDENTITY_SIZE, RECORD_SIZE};
pub use crate::layout::{compute_size, LayoutError, HEADER_SIZE};
pub use crate::plugin::{AccountUpdate, PluginError, SimplePlugin};
pub use crate::segment::{Segment, SegmentError};
