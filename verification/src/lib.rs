//! A sharded key/value storage fabric: a deterministic consistent-hash
//! placement over a membership of node identifiers, a per-node shard store,
//! and the lifecycle state machine that grows the fabric and migrates keys
//! between nodes without losing or duplicating any.
//!
//! Node identifiers are plain strings — they stand for whatever opaque,
//! ordered identifiers the host platform mints — and so are the stored
//! values: the wire codec is monomorphic, so the manager is not generic
//! over the value type.  A deployment that needs richer values carries
//! them in their serialized string form.

pub mod codec;
pub mod node;
pub mod node_manager;
pub mod order;
pub mod placement;
pub mod store;
