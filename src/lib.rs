//! Reconciliation and polling engine of an uptime monitor.
//!
//! The configuration lists named endpoints; the store holds the persisted
//! entry table and the append-only history of observed status codes. The
//! reconciler makes the entry table match the configuration by name, and each
//! poll tick appends one history record per entry.
pub mod config;
pub mod store;
pub mod poll;
pub mod laws;
