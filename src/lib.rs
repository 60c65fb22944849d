//! A flat navigable small-world graph index for approximate nearest-neighbor search: a
//! fixed-slot node storage, greedy beam search, neighbor selection by a relative-distance rule
//! with back-link repair, and G-order node reordering.

pub mod distance;
pub mod index;
pub mod model;
pub mod priority_queue;
pub mod reordering;
pub mod storage;

pub use distance::{Distance, EuclideanDistance};
pub use index::{check_permutation, Index, IndexError, IndexEuclidean, NONE};
pub use priority_queue::{Closest, ClosestQueue, Furthest, FurthestQueue};
pub use reordering::{GOrder, PriorityQueue, Reordering};
pub use storage::{pad_to, InMemStorage};
