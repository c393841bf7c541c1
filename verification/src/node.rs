//! The element capability and the nodes of a tree.

use vstd::prelude::*;
use crate::geom::{Range, Rect};
use crate::pmut::PMut;

verus! {

/// An element that exposes a bounding rectangle.
///
/// The rectangle of a value is a function of the value: two reads of an
/// unchanged element agree.
pub trait Aabb {
    /// The bounding rectangle of the element.
    spec fn rect(&self) -> Rect;

    /// What tells the element from others with the same rectangle: a
    /// mark that stays with the element whatever is written to its
    /// payload. An element that has none leaves this as it is.
    open spec fn key(&self) -> int {
        0
    }

    fn get(&self) -> (r: &Rect)
        ensures
            *r == self.rect(),
    ;
}

/// The record of one node: which elements it holds, where its subproblem
/// was divided and the span of its elements along its axis.
///
/// `start..end` are positions in the element slice that the tree was built
/// over.
#[derive(Clone, Copy, Debug, PartialEq, Eq, Structural)]
pub struct Node {
    pub start: usize,
    pub end: usize,
    pub cont: Option<Range>,
    pub div: Option<i64>,
}

/// One node of a tree together with its elements, protected.
pub struct NodeMut<'a, T: Aabb> {
    pub range: PMut<'a, [T]>,
    pub cont: Option<Range>,
    pub div: Option<i64>,
}

} // verus!
