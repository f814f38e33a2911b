//! An unbalanced binary search tree over a totally ordered, copyable
//! element type: insertion, search, removal and the three depth-first
//! traversals, each traversal calling a callback on every value.
//!
//! `node` holds the nodes and the recursive operations on them, `model`
//! says in mathematical terms what a tree of nodes is and what the
//! operations make of it, and `laws` proves what holds of that model.
//! `interface` states what a tree offers, `implementation` is the tree
//! that owns its nodes, and `service` hides it behind the interface.
//! `order` says what is asked of the element type, and `visit` what it
//! means for a traversal to call its callback.

pub mod implementation;
pub mod interface;
pub mod laws;
pub mod model;
pub mod node;
pub mod order;
pub mod service;
pub mod visit;
