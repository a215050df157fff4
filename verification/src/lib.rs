//! Intersection of two strictly ascending sequences.
//!
//! The batched producer pulls a fixed number of keys from the shorter input and
//! advances one lower-bound search per key against the longer input in
//! lock-step, so that every lane of a batch runs the same number of halving
//! rounds.
//!
//! Every function here that takes a sequence to intersect requires it to be
//! strictly ascending: a sequence that holds the same element twice, or one
//! out of order, is outside the contracts, and `model::is_ascending` tells
//! whether a slice qualifies. The element type's comparison operators must
//! describe a total order (`order::total_order`).

pub mod galloping;
pub mod laws;
pub mod model;
pub mod order;
pub mod search;
pub mod shotgun;

pub use galloping::galloping_intersect;
pub use shotgun::{
    intersect, shotgun_intersect16, shotgun_intersect32, shotgun_intersect4, shotgun_intersect8,
    BatchWidth, Phase, ShotgunIntersection,
};
