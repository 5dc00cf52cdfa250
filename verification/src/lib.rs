//! A secondary index for an entity-component store.
//!
//! The store owns entities and their attribute values and reports, once per
//! scheduling phase, which entities changed the tracked attribute and which
//! lost it. The index keeps a forward map from derived key to the entities
//! currently holding that key and a reverse map from entity to its one live
//! key, in lockstep, and answers `get(key)` with every entity mapped to the
//! key. A synchronization pass applies the store's delta, removals strictly
//! before re-insertions, to restore the two-sided invariant without ever
//! rebuilding the index from scratch.

pub mod forward;
pub mod index;
pub mod key;
pub mod registry;
pub mod sync;
