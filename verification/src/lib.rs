//! Total size of a directory tree, and its display in readable units.
//!
//! The library holds the decisions of a directory walk ([`Stats`]) and the
//! unit selection and rendering of a byte count ([`SizeWithUnit`]). It does
//! no I/O itself: the caller looks entries up and lists directories, and
//! hands the results over as plain values. The module [`tree`] models the
//! file tree that such a walk runs over, and proves what the walk ends with.

pub mod stats;
pub mod tree;
pub mod units;

pub use stats::{Child, EntryKind, IoError, Metadata, Stats, Walk};
pub use units::{SizeUnit, SizeWithUnit};
