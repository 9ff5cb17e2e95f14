//! Ordered and sequential containers, centred on a red-black tree whose
//! balancing invariants are proved after every insert and delete.
//!
//! - `rb_tree`: the red-black tree, its rotations and fixups, lookup,
//!   in-order export and an invariant checker; `tree_laws` states what holds
//!   across sequences of inserts and deletes.
//! - `bst`: an unbalanced binary search tree.
//! - `list`, `dlist`, `stack`, `queue`, `ordered_list`: sequential containers.
//! - `hm`: a map that chains colliding keys in buckets.
//! - `sort`: quick sort and merge sort on vectors of `i32`.

pub mod pos;
pub mod rb_tree;
pub mod tree_laws;
pub mod list;
pub mod dlist;
pub mod stack;
pub mod queue;
pub mod ordered_list;
pub mod bst;
pub mod hm;
pub mod sort;
