//! An ordered set of `usize` keys kept in an unbalanced binary search tree
//! with single-owner node links, and two small companions.
//!
//! - `tree`: the set itself, `UsizeTree`.
//! - `node`: nodes, links, and the slot-level operations under the tree.
//! - `order`: proofs about ordered links.
//! - `laws`: what holds of every tree and of every history of edits.
//! - `bit`, `bit_window`: a bit, and the bits of a byte from the top down.
//! - `sorted_insertion`, `inputs`: sorting by insertion into `Vec` and
//!   `VecDeque`, and the inputs it is measured on.

pub mod bit;
pub mod bit_window;
pub mod inputs;
pub mod laws;
pub mod node;
pub mod order;
pub mod sorted_insertion;
pub mod tree;
