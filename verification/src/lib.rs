//! A streaming reader of comma-separated records, with its behaviour proved.
//!
//! Input arrives in pieces of any size and is kept in one reused ring buffer.
//! A record's fields are slices of that buffer wherever their bytes are
//! physically contiguous; the few that straddle the point where the ring wraps
//! are put together once per record.
//!
//! The modules, from the ground up:
//!
//! - [`model`]: what a text means: lines, fields, records;
//! - [`deque`]: the operations of std's `VecDeque` that the ring is built on;
//! - [`ring`]: the ring buffer;
//! - [`scan`]: the search for separators in a contiguous piece of text;
//! - [`record`]: a record and the steps by which it is parsed;
//! - [`parser`]: the reader itself, as a machine that asks for input;
//! - [`laws`]: what holds of texts and of whole runs of the machine;
//! - [`driving`]: what whoever drives the machine can count on.
mod deque;
pub mod driving;
pub mod laws;
pub mod model;
pub mod parser;
pub mod record;
pub mod ring;
pub mod scan;

pub use parser::Parser;
pub use record::{Record, Step};
pub use ring::{ReadEvent, RingBuffer};
