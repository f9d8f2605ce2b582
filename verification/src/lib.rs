//! A lightweight UI-reconciliation engine.
//!
//! Applications describe interface state as an immutable tree of declarative
//! view snapshots. The engine keeps a cached mirror of the last-rendered
//! structure (a tree of [`node::Node`]s) and, on demand, computes the minimal
//! set of [`command::Command`] values needed to bring an external rendering
//! surface in line with the current view tree, instead of re-rendering
//! everything.

pub mod attrs;
pub mod command;
pub mod views;
pub mod node;
pub mod tree;
pub mod laws;
