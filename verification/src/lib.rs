//! Validation, storage and path queries for road layouts.
//!
//! A layout is a set of nodes, each at a place of its own, joined by directed
//! edges. The library
//!
//! - checks a candidate layout against the structural rules and names the
//!   first one it breaks ([`validate`]);
//! - keeps the one layout that is current behind a reader/writer lock, hands
//!   out snapshots of it and swaps in a whole new one ([`model`]);
//! - finds a path from one node to another along the edges ([`search`]).
//!
//! The contracts speak about layouts through the views of [`graph`], about
//! paths through the walks of [`walk`]. [`routes`] holds what a request
//! carries and what is done with it, [`error`] what is reported when it
//! fails.

pub mod error;
mod frontier;
pub mod graph;
pub mod model;
pub mod routes;
pub mod search;
pub mod validate;
pub mod walk;
