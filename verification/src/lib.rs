//! Explores how a relational database behaves under every possible legal
//! interleaving of several independently-ordered client statement scripts:
//! the generator enumerates all order-preserving merges of the scripts as
//! tasks, and the executor model drives each task against a growable pool of
//! per-client connections under a fail-fast/continue policy.

/// The executor model: pool reservation, client lookup, the failure policy,
/// and database-endpoint resolution.
pub mod executor;
/// Proved laws of the interleaving generator: multinomial count, interleaving
/// length, per-client order preservation, pairwise distinctness, and client
/// range.
pub mod laws;
/// Statements, scripts, consumable tasks, and the interleaving generator.
pub mod tasks;
