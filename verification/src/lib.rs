//! A conservative mark-and-sweep collector over one fixed-capacity arena.
//!
//! The collector owns an arena of bytes and a table with one record for each
//! block that it has handed out. It knows nothing of what its caller stores:
//! a collection takes every word of the root range, and of every block that
//! it reaches, for a possible address, and keeps the blocks that such a word
//! points into. Blocks never move.
//!
//! * [`gc`] holds the collector and its operations.
//! * [`model`] describes a collector's state as a mathematical value, and
//!   says what a collection and a request make of it.
//! * [`record`] holds the table's records and their order, [`scan`] the scan
//!   of a byte range, [`word`] the reading of one word.
//! * [`mark`] holds the invariant of the mark phase.
//! * [`theorems`] states what the collector guarantees of one operation,
//!   [`history`] what it guarantees of a whole life.

pub mod gc;
pub mod history;
pub mod mark;
pub mod model;
pub mod record;
pub mod scan;
pub mod theorems;
pub mod word;

pub use gc::Gc;
pub use model::{GcError, GcView, HEAP_BASE};
pub use record::{Record, RecordStatus, RECORD_SIZE};
pub use scan::ScanStride;
pub use word::WORD;
