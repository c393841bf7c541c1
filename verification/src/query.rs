//! Queries on elements and on trees.

pub mod colfind;
pub mod raycast;
pub mod knearest;
pub mod naive;
pub mod rect;
pub mod tools;
