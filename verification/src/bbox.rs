//! A bounding box paired with a payload.

use vstd::prelude::*;
use crate::geom::Rect;
use crate::node::Aabb;
use crate::pmut::HasInner;

verus! {

/// A rectangle together with a payload. The payload may change while the
/// element sits in a tree; the rectangle may not.
#[derive(Debug, Copy, Clone)]
pub struct BBox<T> {
    pub rect: Rect,
    pub inner: T,
}

/// Shorthand constructor of [`BBox`].
pub fn bbox<T>(rect: Rect, inner: T) -> (r: BBox<T>)
    ensures
        r.rect == rect,
        r.inner == inner,
{
    BBox::new(rect, inner)
}

impl<T> BBox<T> {
    pub fn new(rect: Rect, inner: T) -> (r: BBox<T>)
        ensures
            r.rect == rect,
            r.inner == inner,
    {
        BBox { rect, inner }
    }
}

impl<T> Aabb for BBox<T> {
    open spec fn rect(&self) -> Rect {
        self.rect
    }

    fn get(&self) -> (r: &Rect) {
        &self.rect
    }
}

impl<T> HasInner for BBox<T> {
    type Inner = T;

    open spec fn inner(&self) -> T {
        self.inner
    }

    fn get_inner(&self) -> (r: (&Rect, &T)) {
        (&self.rect, &self.inner)
    }

    fn get_inner_mut(&mut self) -> (r: (&Rect, &mut T)) {
        (&self.rect, &mut self.inner)
    }
}

} // verus!
