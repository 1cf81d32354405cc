//! Keeps a DNS zone's A records in step with the membership of a virtual
//! network: a pure reconciliation engine from a desired and an actual snapshot
//! to an ordered list of create, update and delete actions.
pub mod model;
pub mod engine;
pub mod laws;
pub mod zone;
pub mod membership;
