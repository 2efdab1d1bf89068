//! Hashtables with no wasted space and no collisions over a known key set.
//!
//! These tables are slow to initialize, but fast at lookup, insertion and
//! deletion of keys that were fixed at construction time: each known key is
//! placed in its own slot of a minimal table, with no probing and no unused
//! entries.  Keys outside the known set are routed to a backup store that is
//! created lazily on first need.

pub mod hashing;
pub mod keygraph;
pub mod construct;
pub mod table;
