//! A safe document-object-model library.
//!
//! A `Document` owns a tree of nodes held in an arena; `Node` handles are
//! registry-deduplicated references to positions in that tree, guarded at
//! mutation time by a live-alias count.  `RoNode` is a reduced, read-only
//! handle without the registry and guard bookkeeping.  The crate also offers
//! parsing from text, serialization back to text, and a query language over
//! the tree.

/// Typed errors crossing the document / node / query boundary
pub mod error;

/// The stated laws of the registry, the guard and structural moves
pub mod laws;

/// XML parsing
pub mod parser;

/// Manipulations on the DOM representation
pub mod tree;

/// Read-only primitives
pub mod readonly;

/// The query module for global lookup in the DOM
pub mod xpath;
