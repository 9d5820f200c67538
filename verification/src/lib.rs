//! Layout core of a tiling/stacking window compositor.
//!
//! The crate models every displayed surface as a node of one frame tree and
//! keeps the on-screen rectangles consistent with the tree's structure.  The
//! modules are laid out leaves-first: `defs` holds the plain value types,
//! `frame` the tree cell and its mathematical model, `searching` the
//! structural queries, `packing` the geometry propagation and the
//! single-node edits, `settling` the compound invariant-preserving
//! operations, and `exhibitor` the command facade with the strategist
//! policy.

pub mod defs;
pub mod frame;
pub mod packing;
pub mod searching;
pub mod settling;
pub mod exhibitor;
