//! The verified core of a GUI toolkit: the stylesheet language and the rule tree that matches
//! widgets against it, bit sets of matching rules, the texture atlas and cache, a quad tree, and
//! the tracker that keeps widget state across rebuilds of the ui.
use vstd::prelude::*;

pub mod bitset;
pub mod event;
pub mod layout;
pub mod style;
pub mod atlas;
pub mod cache;
pub mod resources;
pub mod draw;
pub mod plan;
pub mod tracker;
pub mod qtree;
pub mod component_node;

verus! {
}
