//! Permissioned membership registry for a peer-to-peer network.
//!
//! The crate keeps a bounded, administratively curated allow-list of
//! network nodes (the well-known set), a per-node ownership map, and a
//! per-node list of additional allowed connections.  Every mutation
//! validates its preconditions before touching any state, and every
//! public operation carries a contract that pins down both the new state
//! and the exact error returned when a precondition fails.

pub mod assoc;
pub mod laws;
pub mod peer;
pub mod registry;
pub mod resolver;
pub mod store;
