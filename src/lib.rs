//! Nearest-neighbor search over an R-tree of two-dimensional integer points.
//!
//! Squared distances are exact and held in `u128`, so every comparison between
//! distances is a comparison of integers. Two searches share one guarantee:
//! a best-first enumeration that yields the points nearest first and can stop
//! or resume at any step, and a depth-first branch and bound that answers the
//! single nearest point.

pub mod geometry;
pub mod node;
pub mod best_first;
pub mod branch_bound;
pub mod guarantees;
