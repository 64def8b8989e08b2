//! Renders the known controllers and models of a cluster-management tool as a sorted,
//! indented text tree, with the active controller and model marked.
//!
//! `registry` holds the two registries, `tree` assembles the tree from them,
//! `render` turns it into text in an order that does not depend on how the registries
//! were listed, `text` holds that order, and `laws` states what holds across calls.
pub mod keyed;
pub mod laws;
pub mod registry;
pub mod render;
pub mod text;
pub mod tree;
