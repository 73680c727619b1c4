//! A height-balanced binary search tree: an ordered key-to-value mapping kept
//! at logarithmic height by rotation-based rebalancing after every insertion.

pub mod insert;
pub mod laws;
pub mod remove;
pub mod render;
pub mod rotate;
pub mod tree;
