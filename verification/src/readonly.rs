//! Read-only primitives: a reduced handle over a tree position without the
//! registry and guard bookkeeping, safe to copy freely for read-only work.

/// The read-only handle feature set
pub mod tree;

pub use self::tree::RoNode;
