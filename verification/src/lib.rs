//! A virtual file-tree store: a named hierarchy of folders and file
//! references held in memory behind a reader/writer lock, navigated by
//! canonicalized segment paths from a per-session head, snapshotted to a
//! byte form that provably round-trips.

/// The tree itself: nodes, traversal, creation and deletion, and the
/// session interface over a shared store.
pub mod afs;
/// Flattened read-only projections of the tree for presentation.
pub mod api;
/// Caller identification and the allow-list check for mutations.
pub mod auth;
/// The snapshot byte form of a tree and its round-trip guarantee.
pub mod codec;
/// Sessions over one lock-guarded in-memory tree.
pub mod hashmapfs;
/// The store's laws: what creation, deletion and navigation preserve.
pub mod laws;
/// The request-level decisions: entry classification and raw reads.
pub mod service;
/// Path canonicalization and segment helpers.
pub mod utils;
