//! An ordered map and set on a randomized treap: a binary search tree over the keys that is
//! at once a max-heap over priorities drawn at random when a key is first inserted.
use vstd::prelude::*;

pub mod map;
pub mod node;
pub mod order;
pub mod set;
pub mod walk;

pub use map::TreapMap;
pub use set::TreapSet;

verus! {
} // verus!
