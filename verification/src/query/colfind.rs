//! Finding every pair of elements whose rectangles intersect.

use vstd::prelude::*;
use crate::geom::{Axis, Rect};
use crate::node::Aabb;
use crate::pmut::PMut;

pub mod inner;
pub mod oned;

verus! {

/// Receives the pairs that a collision query finds.
///
/// A handler keeps, for the contracts, the list of the rectangle pairs it
/// has been shown. It may change the payloads of the two elements and must
/// leave their rectangles and their keys alone: no element is exchanged
/// for another.
pub trait CollisionHandler {
    type T: Aabb;

    /// The rectangles of the pairs shown so far, in the order of the calls.
    /// A handler that keeps no such list leaves this as it is, and nothing
    /// can then be proved of its `collide`.
    open spec fn seen(&self) -> Seq<(Rect, Rect)> {
        arbitrary()
    }

    /// The keys of the pairs shown so far, in the order of the calls: which
    /// elements they were.
    open spec fn seen_keys(&self) -> Seq<(int, int)> {
        arbitrary()
    }

    /// What the handler needs to hold of itself between calls. A handler
    /// that needs nothing leaves this as it is.
    open spec fn inv(&self) -> bool {
        true
    }

    fn collide(&mut self, a: PMut<Self::T>, b: PMut<Self::T>)
        requires
            old(self).inv(),
        ensures
            final(self).inv(),
            final(self).seen() == old(self).seen().push((a.target().rect(), b.target().rect())),
            final(self).seen_keys() == old(self).seen_keys().push(
                (a.target().key(), b.target().key()),
            ),
            final(a.target()).rect() == a.target().rect(),
            final(b.target()).rect() == b.target().rect(),
            final(a.target()).key() == a.target().key(),
            final(b.target()).key() == b.target().key(),
    ;
}

/// Whether a pair of rectangles is let through: every pair where no axis
/// is given, else those whose intervals along the axis intersect.
pub open spec fn admits(also: Option<Axis>, a: Rect, b: Rect) -> bool {
    match also {
        None => true,
        Some(axis) => a.range(axis).meets(b.range(axis)),
    }
}

/// Shows the two elements to the handler if they are let through, and
/// says whether it did.
pub fn collide_if_admitted<F: CollisionHandler>(
    also: Option<Axis>,
    a: PMut<F::T>,
    b: PMut<F::T>,
    func: &mut F,
) -> (shown: bool)
    requires
        old(func).inv(),
    ensures
        final(func).inv(),
        shown == admits(also, a.target().rect(), b.target().rect()),
        final(a.target()).rect() == a.target().rect(),
        final(b.target()).rect() == b.target().rect(),
        final(a.target()).key() == a.target().key(),
        final(b.target()).key() == b.target().key(),
        shown ==> final(func).seen() == old(func).seen().push(
            (a.target().rect(), b.target().rect()),
        ),
        shown ==> final(func).seen_keys() == old(func).seen_keys().push(
            (a.target().key(), b.target().key()),
        ),
        !shown ==> final(func).seen() == old(func).seen(),
        !shown ==> final(func).seen_keys() == old(func).seen_keys(),
{
    match also {
        None => {
            func.collide(a, b);
            true
        },
        Some(axis) => collide_if_meet(axis, a, b, func),
    }
}

/// Shows the two elements to the handler if their intervals along `axis`
/// intersect, and says whether it did.
pub fn collide_if_meet<F: CollisionHandler>(
    axis: Axis,
    a: PMut<F::T>,
    b: PMut<F::T>,
    func: &mut F,
) -> (shown: bool)
    requires
        old(func).inv(),
    ensures
        final(func).inv(),
        shown == a.target().rect().range(axis).meets(b.target().rect().range(axis)),
        final(a.target()).rect() == a.target().rect(),
        final(b.target()).rect() == b.target().rect(),
        final(a.target()).key() == a.target().key(),
        final(b.target()).key() == b.target().key(),
        shown ==> final(func).seen() == old(func).seen().push(
            (a.target().rect(), b.target().rect()),
        ),
        shown ==> final(func).seen_keys() == old(func).seen_keys().push(
            (a.target().key(), b.target().key()),
        ),
        !shown ==> final(func).seen() == old(func).seen(),
        !shown ==> final(func).seen_keys() == old(func).seen_keys(),
{
    let meet = a.as_ref().get().get_range(axis).intersects(b.as_ref().get().get_range(axis));
    if meet {
        func.collide(a, b);
    } else {
        let _ = a.into_ref();
        let _ = b.into_ref();
    }
    meet
}

} // verus!
