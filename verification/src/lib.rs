//! Structured access to fixed-layout records in byte buffers, and
//! cursor-based stream buffers for incremental reads and writes.
//!
//! - [`layout`] generates the layout of a record from its description: the
//!   fields' types, byte orders and places.
//! - [`nocopy`] reads and writes the fields of a record in its bytes.
//! - [`copy`] holds the stream buffers: a reader that can step back, and a
//!   writer over a growable or a fixed region.
//! - [`endian`] holds the byte orders and the encoding of integers that the
//!   others rest on.

pub mod endian;
pub mod layout;
pub mod nocopy;
pub mod copy;

pub use crate::copy::{StreamReadBuffer, StreamWriteBuffer};
pub use crate::layout::{no_copy, RecordLayout};
pub use crate::nocopy::RecordView;
