//! An embedded, append-only time-series storage engine.
//!
//! A store is a fixed pool of equal-size blocks together with a catalog of
//! named streams. Each stream owns a chain of segments (one block each) that
//! hold its frames in timestamp order. Writers append frames, roll over to new
//! blocks and reclaim old ones; readers scan time ranges and cursors seek.

mod error;
mod frame;
mod store;
mod writer;
mod reader;
mod cursor;
pub mod laws;

pub use reader::Reader;
pub use cursor::Iterator;
pub use writer::{Writer, WriteContext};

pub use error::ErrorCode;
pub use frame::{Frame, FrameView, ContiguousSegment};
pub use store::{Store, StreamEntry, Segment};



