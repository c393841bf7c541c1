//! Broad-phase collision detection on a kd-tree of axis-aligned bounding
//! boxes.
//!
//! A tree is built over a slice of elements, each of which has a
//! rectangle with integer coordinates. Building reorders the slice: the
//! elements are divided at the median start along alternating axes, and
//! those that straddle a divider stay at the node that owns it. The tree
//! then answers four kinds of queries: all pairs of elements whose
//! rectangles intersect, the elements in or outside a window, the elements
//! nearest to a point, and the elements that a ray meets first. No query
//! moves an element or changes a rectangle; queries hand out payloads for
//! writing through protected references.
//!
//! - [`geom`]: axes, intervals, rectangles, points and rays.
//! - [`node`], [`bbox`], [`pmut`]: elements, nodes and protected
//!   references.
//! - [`model`]: the mathematical model that the contracts speak of.
//! - [`tree`]: the tree, its builder, its shape, the parallel policy and
//!   the owning containers.
//! - [`query`]: the queries, and brute force for each of them.
//! - [`util`]: sorting, the scratch lists of the sweeps, runs of a slice.
//! - [`report`]: the height heuristic held against measurements.

pub mod geom;
pub mod node;
pub mod bbox;
pub mod pmut;
pub mod model;
pub mod util;
pub mod query;
pub mod tree;
pub mod report;
