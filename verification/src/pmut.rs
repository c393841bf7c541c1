//! A protected mutable reference: it lets a caller change the payload of an
//! element, never its rectangle, and never replace the element as a whole.

use vstd::prelude::*;
use crate::geom::Rect;
use crate::geom::Range;
use crate::node::{Aabb, NodeMut};

verus! {

/// An element with a payload that can be changed apart from its rectangle.
pub trait HasInner: Aabb {
    type Inner;

    /// The payload of the element.
    spec fn inner(&self) -> Self::Inner;

    fn get_inner(&self) -> (r: (&Rect, &Self::Inner))
        ensures
            *r.0 == self.rect(),
            *r.1 == self.inner(),
    ;

    /// Hands out the payload for writing. Whatever is written, the
    /// rectangle and the key stay.
    fn get_inner_mut(&mut self) -> (r: (&Rect, &mut Self::Inner))
        ensures
            *r.0 == old(self).rect(),
            *r.1 == old(self).inner(),
            final(self).rect() == old(self).rect(),
            final(self).key() == old(self).key(),
            final(self).inner() == *final(r.1),
    ;
}

/// A protected mutable reference.
pub struct PMut<'a, T: ?Sized> {
    inner: &'a mut T,
}

impl<'a, T: ?Sized> PMut<'a, T> {
    /// The reference behind the protection.
    pub closed spec fn target(self) -> &'a mut T {
        self.inner
    }

    /// Creates a protected reference.
    pub fn new(inner: &'a mut T) -> (r: PMut<'a, T>)
        ensures
            &*r.target() == &*old(inner),
            &*final(r.target()) == &*final(inner),
    {
        PMut { inner }
    }

    /// Gives up the right to write: the target stays as it is now.
    pub fn into_ref(self) -> (r: &'a T)
        ensures
            r == &*self.target(),
            &*final(self.target()) == &*self.target(),
    {
        &*self.inner
    }

    /// Reads the target.
    pub fn as_ref(&self) -> (r: &T)
        ensures
            r == &*self.target(),
    {
        &*self.inner
    }

    /// Starts a new, shorter borrow of the same target.
    pub fn borrow_mut(&mut self) -> (r: PMut<T>)
        ensures
            &*r.target() == &*old(self).target(),
            &*final(self).target() == &*final(r.target()),
            &*final(final(self).target()) == &*final(old(self).target()),
    {
        PMut { inner: self.inner }
    }
}

impl<'a, 'b: 'a, T> PMut<'a, PMut<'b, T>> {
    /// Flattens a protected reference to a protected reference.
    pub fn flatten(self) -> (r: PMut<'a, T>)
        ensures
            *r.target() == *self.target().target(),
            *final(r.target()) == *final(self.target()).target(),
            *final(final(self.target()).target()) == *final(self.target().target()),
    {
        PMut { inner: self.inner.inner }
    }
}

impl<'a, T> PMut<'a, T> {
    /// Turns a protected reference into a protected slice of length one.
    pub fn into_slice(self) -> (r: PMut<'a, [T]>)
        ensures
            r.target()@ == seq![*self.target()],
            final(r.target())@ == seq![*final(self.target())],
    {
        PMut { inner: slice_from_mut(self.inner) }
    }
}

/// Calls `core::slice::from_mut`. Trusted: the slice has length one and
/// its only item is the referent, before and after.
#[verifier::external_body]
fn slice_from_mut<T>(x: &mut T) -> (r: &mut [T])
    ensures
        r@ == seq![*old(x)],
        final(r)@ == seq![*final(x)],
{
    core::slice::from_mut(x)
}

impl<'a, 'b: 'a, T: Aabb> PMut<'a, NodeMut<'b, T>> {
    /// Takes a node apart: its divider and its span for reading, its
    /// elements protected.
    pub fn into_range_full(self) -> (r: (&'a Option<i64>, &'a Option<Range>, PMut<'a, [T]>))
        ensures
            *r.0 == self.target().div,
            *r.1 == self.target().cont,
            r.2.target()@ == self.target().range.target()@,
            final(self.target()).div == self.target().div,
            final(self.target()).cont == self.target().cont,
            final(self.target()).range.target()@ == final(r.2.target())@,
            final(final(self.target()).range.target())@ == final(self.target().range.target())@,
    {
        (&self.inner.div, &self.inner.cont, self.inner.range.borrow_mut())
    }

    /// The elements of a node, protected.
    pub fn into_range(self) -> (r: PMut<'a, [T]>)
        ensures
            r.target()@ == self.target().range.target()@,
            final(self.target()).div == self.target().div,
            final(self.target()).cont == self.target().cont,
            final(self.target()).range.target()@ == final(r.target())@,
            final(final(self.target()).range.target())@ == final(self.target().range.target())@,
    {
        self.inner.range.borrow_mut()
    }
}

impl<'a, T: Aabb> PMut<'a, T> {
    /// Gives up the protected reference for a shared one to the rectangle.
    pub fn unpack_rect(self) -> (r: &'a Rect)
        ensures
            *r == self.target().rect(),
            *final(self.target()) == *self.target(),
    {
        self.inner.get()
    }
}

impl<'a, T: HasInner> PMut<'a, T> {
    /// The rectangle for reading and the payload for writing.
    pub fn unpack(self) -> (r: (&'a Rect, &'a mut T::Inner))
        ensures
            *r.0 == self.target().rect(),
            *r.1 == self.target().inner(),
            final(self.target()).rect() == self.target().rect(),
            final(self.target()).key() == self.target().key(),
            final(self.target()).inner() == *final(r.1),
    {
        self.inner.get_inner_mut()
    }

    /// The payload for writing.
    pub fn unpack_inner(self) -> (r: &'a mut T::Inner)
        ensures
            *r == self.target().inner(),
            final(self.target()).rect() == self.target().rect(),
            final(self.target()).key() == self.target().key(),
            final(self.target()).inner() == *final(r),
    {
        self.inner.get_inner_mut().1
    }
}

impl<'a, T> PMut<'a, [T]> {
    /// The number of elements behind the reference.
    pub fn len(&self) -> (r: usize)
        ensures
            r == self.target()@.len(),
    {
        self.inner.len()
    }

    /// The element at `ind`, protected.
    pub fn get_index_mut(self, ind: usize) -> (r: PMut<'a, T>)
        requires
            ind < self.target()@.len(),
        ensures
            *r.target() == self.target()@[ind as int],
            final(self.target())@ == self.target()@.update(ind as int, *final(r.target())),
    {
        PMut { inner: &mut self.inner[ind] }
    }

    /// The elements at two different positions, both protected.
    pub fn pair_mut(self, i: usize, j: usize) -> (r: (PMut<'a, T>, PMut<'a, T>))
        requires
            i != j,
            i < self.target()@.len(),
            j < self.target()@.len(),
        ensures
            *r.0.target() == self.target()@[i as int],
            *r.1.target() == self.target()@[j as int],
            final(self.target())@ == self.target()@.update(i as int, *final(r.0.target())).update(
                j as int,
                *final(r.1.target()),
            ),
    {
        if i < j {
            let (head, tail) = self.inner.split_at_mut(j);
            (PMut { inner: &mut head[i] }, PMut { inner: &mut tail[0] })
        } else {
            let (head, tail) = self.inner.split_at_mut(i);
            (PMut { inner: &mut tail[0] }, PMut { inner: &mut head[j] })
        }
    }

    /// Splits off the first element; `None` for an empty slice.
    pub fn split_first_mut(self) -> (r: Option<(PMut<'a, T>, PMut<'a, [T]>)>)
        ensures
            self.target()@.len() == 0 ==> r is None && final(self.target())@ == self.target()@,
            self.target()@.len() > 0 ==> r is Some && {
                let (first, rest) = r->0;
                &&& *first.target() == self.target()@[0]
                &&& rest.target()@ == self.target()@.subrange(1, self.target()@.len() as int)
                &&& final(self.target())@ == seq![*final(first.target())] + final(rest.target())@
            },
    {
        if self.inner.len() == 0 {
            None
        } else {
            let (head, rest) = self.inner.split_at_mut(1);
            Some((PMut { inner: &mut head[0] }, PMut { inner: rest }))
        }
    }

    /// The part of the slice before position `end`.
    pub fn truncate_to(self, end: usize) -> (r: Self)
        requires
            end <= self.target()@.len(),
        ensures
            r.target()@ == self.target()@.subrange(0, end as int),
            final(self.target())@ == final(r.target())@ + self.target()@.subrange(
                end as int,
                self.target()@.len() as int,
            ),
    {
        let (head, _tail) = self.inner.split_at_mut(end);
        PMut { inner: head }
    }

    /// The part of the slice from position `start` on.
    pub fn truncate_from(self, start: usize) -> (r: Self)
        requires
            start <= self.target()@.len(),
        ensures
            r.target()@ == self.target()@.subrange(start as int, self.target()@.len() as int),
            final(self.target())@ == self.target()@.subrange(0, start as int) + final(r.target())@,
    {
        let (_head, tail) = self.inner.split_at_mut(start);
        PMut { inner: tail }
    }

    /// The part of the slice from `a.start` up to `a.end`.
    pub fn truncate(self, a: core::ops::Range<usize>) -> (r: Self)
        requires
            a.start <= a.end <= self.target()@.len(),
        ensures
            r.target()@ == self.target()@.subrange(a.start as int, a.end as int),
            final(self.target())@ == self.target()@.subrange(0, a.start as int)
                + final(r.target())@
                + self.target()@.subrange(a.end as int, self.target()@.len() as int),
    {
        let (head, _tail) = self.inner.split_at_mut(a.end);
        let (_skip, mid) = head.split_at_mut(a.start);
        PMut { inner: mid }
    }
}

impl<'a, T> PMut<'a, [T]> {
    /// Walks the slice from either end, handing out each element
    /// protected.
    pub fn iter_mut(self) -> (r: PMutIter<'a, T>)
        ensures
            r.wf(),
            r.target()@ == self.target()@,
            final(r.target())@ == final(self.target())@,
    {
        PMutIter { inner: Some(self.inner) }
    }
}

/// Hands out the elements of a protected slice one by one, each
/// protected.
pub struct PMutIter<'a, T> {
    inner: Option<&'a mut [T]>,
}

impl<'a, T> PMutIter<'a, T> {
    /// The iterator holds its slice.
    pub closed spec fn wf(self) -> bool {
        self.inner is Some
    }

    /// The part of the slice that has not been handed out.
    pub closed spec fn target(self) -> &'a mut [T] {
        self.inner->0
    }

    /// The number of elements that are left.
    pub fn len(&self) -> (r: usize)
        requires
            self.wf(),
        ensures
            r == self.target()@.len(),
    {
        match &self.inner {
            Some(s) => s.len(),
            None => 0,
        }
    }

    /// The first element that is left, or `None` at the end.
    pub fn next(&mut self) -> (r: Option<PMut<'a, T>>)
        requires
            old(self).wf(),
        ensures
            final(self).wf(),
            old(self).target()@.len() == 0 ==> {
                &&& r is None
                &&& final(self).target()@ == old(self).target()@
                &&& final(final(self).target())@ == final(old(self).target())@
            },
            old(self).target()@.len() > 0 ==> {
                &&& r is Some
                &&& *(r->0).target() == old(self).target()@[0]
                &&& final(self).target()@ == old(self).target()@.drop_first()
                &&& final(old(self).target())@ == seq![*final((r->0).target())]
                    + final(final(self).target())@
            },
    {
        let s = self.inner.take();
        match s {
            None => {
                None
            },
            Some(slice) => {
                if slice.len() == 0 {
                    self.inner = Some(slice);
                    None
                } else {
                    let (head, rest) = slice.split_at_mut(1);
                    self.inner = Some(rest);
                    proof {
                        assert(old(self).target()@.subrange(1, old(self).target()@.len() as int)
                            =~= old(self).target()@.drop_first());
                    }
                    Some(PMut { inner: &mut head[0] })
                }
            },
        }
    }

    /// The last element that is left, or `None` at the end.
    pub fn next_back(&mut self) -> (r: Option<PMut<'a, T>>)
        requires
            old(self).wf(),
        ensures
            final(self).wf(),
            old(self).target()@.len() == 0 ==> {
                &&& r is None
                &&& final(self).target()@ == old(self).target()@
                &&& final(final(self).target())@ == final(old(self).target())@
            },
            old(self).target()@.len() > 0 ==> {
                &&& r is Some
                &&& *(r->0).target() == old(self).target()@.last()
                &&& final(self).target()@ == old(self).target()@.drop_last()
                &&& final(old(self).target())@ == final(final(self).target())@ + seq![
                    *final((r->0).target()),
                ]
            },
    {
        let s = self.inner.take();
        match s {
            None => {
                None
            },
            Some(slice) => {
                let n = slice.len();
                if n == 0 {
                    self.inner = Some(slice);
                    None
                } else {
                    let (rest, tail) = slice.split_at_mut(n - 1);
                    self.inner = Some(rest);
                    proof {
                        assert(old(self).target()@.subrange(0, n - 1) =~= old(self).target()@.drop_last());
                    }
                    Some(PMut { inner: &mut tail[0] })
                }
            },
        }
    }
}

} // verus!
