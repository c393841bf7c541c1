//! Rectangle window queries: the elements that intersect a rectangle, that
//! lie inside it, or that do not lie inside it.

use vstd::prelude::*;
use core::marker::PhantomData;
use crate::geom::{Axis, Rect};
use crate::node::Aabb;
use crate::pmut::{HasInner, PMut};
use crate::tree::{Tree, Vistr};

verus! {

/// What a window query asks of an element.
#[derive(Clone, Copy, Debug, PartialEq, Eq, Structural)]
pub enum RectMode {
    /// The element's rectangle intersects the window.
    Intersect,
    /// The element's rectangle lies inside the window.
    Inside,
    /// The element's rectangle does not lie inside the window.
    NotInside,
}

impl RectMode {
    /// Whether an element with rectangle `elem` answers the query with
    /// window `window`.
    pub open spec fn holds(self, window: Rect, elem: Rect) -> bool {
        match self {
            RectMode::Intersect => window.meets(elem),
            RectMode::Inside => window.encloses(elem),
            RectMode::NotInside => !window.encloses(elem),
        }
    }

    pub fn test(&self, window: &Rect, elem: &Rect) -> (r: bool)
        ensures
            r == self.holds(*window, *elem),
    {
        match self {
            RectMode::Intersect => window.intersects_rect(elem),
            RectMode::Inside => window.contains_rect(elem),
            RectMode::NotInside => !window.contains_rect(elem),
        }
    }

    /// Whether only elements that intersect the window can answer.
    pub fn prunes(&self) -> (r: bool)
        ensures
            r == (self != RectMode::NotInside),
    {
        match self {
            RectMode::NotInside => false,
            _ => true,
        }
    }
}

/// `found` lists, each once, the positions in `lo..hi` whose rectangle
/// answers the query, and no other.
pub open spec fn found_exactly(
    found: Seq<usize>,
    r: Seq<Rect>,
    lo: int,
    hi: int,
    window: Rect,
    mode: RectMode,
) -> bool {
    &&& found.no_duplicates()
    &&& forall|i: usize| #[trigger]
        found.contains(i) <==> lo <= i < hi && mode.holds(window, r[i as int])
}

/// Two lists over adjacent ranges make a list over both.
pub proof fn lemma_found_concat(
    a: Seq<usize>,
    b: Seq<usize>,
    r: Seq<Rect>,
    lo: int,
    mid: int,
    hi: int,
    window: Rect,
    mode: RectMode,
)
    requires
        lo <= mid <= hi,
        found_exactly(a, r, lo, mid, window, mode),
        found_exactly(b, r, mid, hi, window, mode),
    ensures
        found_exactly(a + b, r, lo, hi, window, mode),
{
    let c = a + b;
    assert forall|i: int, j: int| 0 <= i < c.len() && 0 <= j < c.len() && i != j implies c[i]
        != c[j] by {
        if i < a.len() {
            assert(a.contains(c[i]));
        } else {
            assert(b[i - a.len()] == c[i]);
            assert(b.contains(c[i]));
        }
        if j < a.len() {
            assert(a.contains(c[j]));
        } else {
            assert(b[j - a.len()] == c[j]);
            assert(b.contains(c[j]));
        }
    }
    assert forall|i: usize| #[trigger] c.contains(i) <==> lo <= i < hi && mode.holds(
        window,
        r[i as int],
    ) by {
        if c.contains(i) {
            let k = choose|k: int| 0 <= k < c.len() && c[k] == i;
            if k < a.len() {
                assert(a.contains(i));
            } else {
                assert(b[k - a.len()] == i);
                assert(b.contains(i));
            }
        }
        if lo <= i < hi && mode.holds(window, r[i as int]) {
            if i < mid {
                assert(a.contains(i));
                let k = choose|k: int| 0 <= k < a.len() && a[k] == i;
                assert(c[k] == i);
            } else {
                assert(b.contains(i));
                let k = choose|k: int| 0 <= k < b.len() && b[k] == i;
                assert(c[k + a.len()] == i);
            }
        }
    }
}

/// Appends to `out` the positions in `lo..hi`, in order, whose rectangle
/// answers the query: the part of the work that a node does on its own
/// elements, and all of the work of brute force.
pub fn scan_range<T: Aabb>(
    elems: &[T],
    lo: usize,
    hi: usize,
    window: &Rect,
    mode: RectMode,
    out: &mut Vec<usize>,
) -> (found: Ghost<Seq<usize>>)
    requires
        lo <= hi <= elems@.len(),
    ensures
        final(out)@ == old(out)@ + found@,
        found_exactly(found@, crate::model::rects_of(elems@), lo as int, hi as int, *window, mode),
{
    let ghost r = crate::model::rects_of(elems@);
    let ghost mut found: Seq<usize> = Seq::empty();
    let mut i = lo;
    proof {
        assert(old(out)@ + found =~= old(out)@);
    }
    while i < hi
        invariant
            lo <= i <= hi,
            hi <= elems@.len(),
            r == crate::model::rects_of(elems@),
            out@ == old(out)@ + found,
            found_exactly(found, r, lo as int, i as int, *window, mode),
        decreases hi - i,
    {
        proof {
            assert(r[i as int] == elems@[i as int].rect());
        }
        let ghost one: Seq<usize> = if mode.holds(*window, r[i as int]) {
            seq![i]
        } else {
            Seq::empty()
        };
        if mode.test(window, elems[i].get()) {
            out.push(i);
        }
        proof {
            assert(found_exactly(one, r, i as int, i + 1, *window, mode)) by {
                if mode.holds(*window, r[i as int]) {
                    assert(one[0] == i);
                }
            }
            lemma_found_concat(found, one, r, lo as int, i as int, i + 1, *window, mode);
            assert(out@ =~= old(out)@ + (found + one));
            found = found + one;
        }
        i += 1;
    }
    Ghost(found)
}

/// Appends to `out` the positions of the elements of the subtree `m` whose
/// rectangle answers the query.
///
/// Unless the query asks for what lies outside, a node whose span along
/// its axis misses the window is passed over, and a subtree is entered only
/// if the window reaches to its side of the divider.
pub fn rect_recurse<T: Aabb>(
    this_axis: Axis,
    m: Vistr,
    elems: &[T],
    window: &Rect,
    mode: RectMode,
    out: &mut Vec<usize>,
) -> (found: Ghost<Seq<usize>>)
    requires
        m.wf(crate::model::rects_of(elems@), this_axis),
        m.end <= elems@.len(),
        crate::model::all_valid(crate::model::rects_of(elems@), 0, elems@.len() as int),
    ensures
        final(out)@ == old(out)@ + found@,
        found_exactly(
            found@,
            crate::model::rects_of(elems@),
            m.start(),
            m.end as int,
            *window,
            mode,
        ),
    decreases m.height,
{
    let ghost r = crate::model::rects_of(elems@);
    let ghost none: Seq<usize> = Seq::empty();
    let (nn, rest) = m.next();
    proof {
        m.lemma_root(r, this_axis);
        assert(old(out)@ + none =~= old(out)@);
    }
    let span = window.get_range(this_axis);
    let reach = match nn.cont {
        None => false,
        Some(cont) => !mode.prunes() || cont.intersects(span),
    };
    let here = if reach {
        scan_range(elems, nn.start, nn.end, window, mode, out)
    } else {
        proof {
            assert forall|i: usize| nn.start <= i < nn.end implies !mode.holds(
                *window,
                #[trigger] r[i as int],
            ) by {
                assert(r[i as int].valid());
                if nn.cont is Some {
                    assert((nn.cont->0).encloses(r[i as int].range(this_axis)));
                }
            }
            assert(found_exactly(none, r, m.start(), nn.end as int, *window, mode));
        }
        Ghost(none)
    };
    let (left, right) = match rest {
        None => {
            return here;
        },
        Some(children) => children,
    };
    let div = match nn.div {
        None => {
            return here;
        },
        Some(div) => div,
    };
    proof {
        m.lemma_children(r, this_axis);
    }
    let ghost out1 = out@;
    let in_left = if !mode.prunes() || span.start <= div {
        rect_recurse(this_axis.next(), left, elems, window, mode, out)
    } else {
        proof {
            assert forall|i: usize| left.start() <= i < left.end implies !mode.holds(
                *window,
                #[trigger] r[i as int],
            ) by {
                assert(r[i as int].valid());
                assert(r[i as int].range(this_axis).end < div);
            }
            assert(found_exactly(none, r, left.start(), left.end as int, *window, mode));
        }
        Ghost(none)
    };
    let ghost out2 = out@;
    let in_right = if !mode.prunes() || span.end >= div {
        rect_recurse(this_axis.next(), right, elems, window, mode, out)
    } else {
        proof {
            assert forall|i: usize| right.start() <= i < right.end implies !mode.holds(
                *window,
                #[trigger] r[i as int],
            ) by {
                assert(r[i as int].valid());
                assert(r[i as int].range(this_axis).start > div);
            }
            assert(found_exactly(none, r, right.start(), right.end as int, *window, mode));
        }
        Ghost(none)
    };
    proof {
        assert(out1 + none =~= out1);
        assert(out2 + none =~= out2);
        lemma_found_concat(
            here@,
            in_left@,
            r,
            m.start(),
            nn.end as int,
            left.end as int,
            *window,
            mode,
        );
        lemma_found_concat(
            here@ + in_left@,
            in_right@,
            r,
            m.start(),
            left.end as int,
            m.end as int,
            *window,
            mode,
        );
        assert(out@ =~= old(out)@ + (here@ + in_left@ + in_right@));
    }
    Ghost(here@ + in_left@ + in_right@)
}

/// Receives the elements that a window query finds.
///
/// A handler keeps, for the contracts, the list of the rectangles of the
/// elements it has been shown. It may change the payload of an element and
/// must leave its rectangle and its key alone.
pub trait ElemHandler {
    type T: Aabb;

    /// The rectangles of the elements shown so far, in the order of the
    /// calls. A handler that keeps no such list leaves this as it is, and
    /// nothing can then be proved of its `handle`.
    open spec fn seen(&self) -> Seq<Rect> {
        arbitrary()
    }

    /// What the handler needs to hold of itself between calls. A handler
    /// that needs nothing leaves this as it is.
    open spec fn inv(&self) -> bool {
        true
    }

    fn handle(&mut self, a: PMut<Self::T>)
        requires
            old(self).inv(),
        ensures
            final(self).inv(),
            final(self).seen() == old(self).seen().push(a.target().rect()),
            final(a.target()).rect() == a.target().rect(),
            final(a.target()).key() == a.target().key(),
    ;
}

/// A handler made of a function, which is given the rectangle of an
/// element to read and its payload to write.
pub struct ElemFnMut<T, F> {
    func: F,
    seen: Ghost<Seq<Rect>>,
    _p: PhantomData<T>,
}

impl<T: HasInner, F: FnMut(&Rect, &mut T::Inner)> ElemFnMut<T, F> {
    /// The function inside.
    pub closed spec fn func(&self) -> F {
        self.func
    }

    /// A handler that shows each element to `func`.
    pub fn new(func: F) -> (r: ElemFnMut<T, F>)
        ensures
            r.func() == func,
            r.seen() == Seq::<Rect>::empty(),
            (forall|rect: &Rect, a: &mut T::Inner| #[trigger] call_requires(func, (rect, a)))
                ==> r.inv(),
    {
        ElemFnMut { func, seen: Ghost(Seq::empty()), _p: PhantomData }
    }
}

impl<T: HasInner, F: FnMut(&Rect, &mut T::Inner)> ElemHandler for ElemFnMut<T, F> {
    type T = T;

    closed spec fn seen(&self) -> Seq<Rect> {
        self.seen@
    }

    /// The function takes any rectangle and payload.
    closed spec fn inv(&self) -> bool {
        forall|r: &Rect, a: &mut T::Inner| #[trigger] call_requires(self.func, (r, a))
    }

    fn handle(&mut self, a: PMut<T>) {
        let ghost shown = a.target().rect();
        let (rect, inner) = a.unpack();
        (self.func)(rect, inner);
        self.seen = Ghost(self.seen@.push(shown));
    }
}

/// The rectangles at the listed positions.
pub open spec fn rects_at(r: Seq<Rect>, found: Seq<usize>) -> Seq<Rect> {
    Seq::new(found.len(), |k: int| r[found[k] as int])
}

/// Shows the handler the elements at the listed positions, in order.
pub fn show_all<F: ElemHandler>(elems: &mut [F::T], found: &Vec<usize>, func: &mut F)
    requires
        old(func).inv(),
        forall|k: int| 0 <= k < found@.len() ==> (#[trigger] found@[k]) < old(elems)@.len(),
    ensures
        crate::model::rects_of(final(elems)@) == crate::model::rects_of(old(elems)@),
        crate::model::keys_of(final(elems)@) == crate::model::keys_of(old(elems)@),
        final(func).inv(),
        final(func).seen() == old(func).seen() + rects_at(
            crate::model::rects_of(old(elems)@),
            found@,
        ),
{
    let ghost r = crate::model::rects_of(elems@);
    let ghost ks = crate::model::keys_of(elems@);
    let mut k: usize = 0;
    proof {
        assert(old(func).seen() + rects_at(r, found@.subrange(0, 0)) =~= old(func).seen());
    }
    while k < found.len()
        invariant
            k <= found@.len(),
            forall|t: int| 0 <= t < found@.len() ==> (#[trigger] found@[t]) < elems@.len(),
            crate::model::rects_of(elems@) == r,
            crate::model::keys_of(elems@) == ks,
            func.inv(),
            func.seen() == old(func).seen() + rects_at(r, found@.subrange(0, k as int)),
        decreases found@.len() - k,
    {
        let pos = found[k];
        let ghost before = elems@;
        proof {
            assert(r[pos as int] == elems@[pos as int].rect());
        }
        func.handle(PMut::new(&mut elems[pos]));
        proof {
            assert(crate::model::rects_of(elems@) =~= r) by {
                assert forall|i: int| 0 <= i < r.len() implies crate::model::rects_of(elems@)[i]
                    == r[i] by {
                    if i != pos {
                        assert(elems@[i] == before[i]);
                        assert(r[i] == before[i].rect());
                    }
                }
            }
            assert(rects_at(r, found@.subrange(0, k + 1)) =~= rects_at(
                r,
                found@.subrange(0, k as int),
            ).push(r[pos as int]));
        }
        k += 1;
    }
    proof {
        assert(found@.subrange(0, found@.len() as int) =~= found@);
    }
}

impl<'a, T: Aabb> Tree<'a, T> {
    /// The positions of the elements whose rectangle answers the query,
    /// each once, in the order in which the tree comes to them.
    pub fn find_in_window(&self, window: &Rect, mode: RectMode) -> (found: Vec<usize>)
        requires
            self.wf(),
        ensures
            found_exactly(found@, self.rects(), 0, self.rects().len() as int, *window, mode),
    {
        let mut out: Vec<usize> = Vec::new();
        let m = self.vistr();
        let found = rect_recurse(self.axis, m, &*self.bots, window, mode, &mut out);
        proof {
            assert(out@ =~= found@);
        }
        out
    }

    /// The elements whose rectangle answers the query, each once.
    pub fn for_all_in_window(&self, window: &Rect, mode: RectMode) -> (res: Vec<&T>)
        requires
            self.wf(),
        ensures
            exists|found: Seq<usize>|
                {
                    &&& found_exactly(
                        found,
                        self.rects(),
                        0,
                        self.rects().len() as int,
                        *window,
                        mode,
                    )
                    &&& res@.len() == found.len()
                    &&& forall|k: int|
                        0 <= k < found.len() ==> *(#[trigger] res@[k]) == self.elements()[found[k] as int]
                },
    {
        let found = self.find_in_window(window, mode);
        let mut res: Vec<&T> = Vec::new();
        let mut k: usize = 0;
        while k < found.len()
            invariant
                k <= found@.len(),
                res@.len() == k,
                self.elements() == self.bots@,
                forall|t: usize| found@.contains(t) ==> t < self.bots@.len(),
                forall|t: int| 0 <= t < k ==> *(#[trigger] res@[t]) == self.bots@[found@[t] as int],
            decreases found@.len() - k,
        {
            proof {
                assert(found@.contains(found@[k as int]));
            }
            res.push(&self.bots[found[k]]);
            k += 1;
        }
        res
    }

    /// The elements whose rectangle intersects `rect`.
    pub fn for_all_intersect_rect(&self, rect: &Rect) -> (res: Vec<&T>)
        requires
            self.wf(),
        ensures
            exists|found: Seq<usize>|
                {
                    &&& found_exactly(
                        found,
                        self.rects(),
                        0,
                        self.rects().len() as int,
                        *rect,
                        RectMode::Intersect,
                    )
                    &&& res@.len() == found.len()
                    &&& forall|k: int|
                        0 <= k < found.len() ==> *(#[trigger] res@[k]) == self.elements()[found[k] as int]
                },
    {
        self.for_all_in_window(rect, RectMode::Intersect)
    }

    /// The elements whose rectangle lies inside `rect`.
    pub fn for_all_in_rect(&self, rect: &Rect) -> (res: Vec<&T>)
        requires
            self.wf(),
        ensures
            exists|found: Seq<usize>|
                {
                    &&& found_exactly(
                        found,
                        self.rects(),
                        0,
                        self.rects().len() as int,
                        *rect,
                        RectMode::Inside,
                    )
                    &&& res@.len() == found.len()
                    &&& forall|k: int|
                        0 <= k < found.len() ==> *(#[trigger] res@[k]) == self.elements()[found[k] as int]
                },
    {
        self.for_all_in_window(rect, RectMode::Inside)
    }

    /// The elements whose rectangle does not lie inside `rect`.
    pub fn for_all_not_in_rect(&self, rect: &Rect) -> (res: Vec<&T>)
        requires
            self.wf(),
        ensures
            exists|found: Seq<usize>|
                {
                    &&& found_exactly(
                        found,
                        self.rects(),
                        0,
                        self.rects().len() as int,
                        *rect,
                        RectMode::NotInside,
                    )
                    &&& res@.len() == found.len()
                    &&& forall|k: int|
                        0 <= k < found.len() ==> *(#[trigger] res@[k]) == self.elements()[found[k] as int]
                },
    {
        self.for_all_in_window(rect, RectMode::NotInside)
    }

    /// Shows the handler the elements whose rectangle answers the query,
    /// each once, and leaves every element in its place with its
    /// rectangle.
    pub fn for_all_in_window_mut<F: ElemHandler<T = T>>(
        &mut self,
        window: &Rect,
        mode: RectMode,
        func: &mut F,
    )
        requires
            old(func).inv(),
            old(self).wf(),
        ensures
            final(self).wf(),
            final(self).rects() == old(self).rects(),
            final(self).keys() == old(self).keys(),
            final(self).nodes() == old(self).nodes(),
            final(self).axis() == old(self).axis(),
            final(self).levels() == old(self).levels(),
            final(self).bucket() == old(self).bucket(),
            final(final(self).target())@ == final(old(self).target())@,
            exists|found: Seq<usize>|
                {
                    &&& found_exactly(
                        found,
                        old(self).rects(),
                        0,
                        old(self).rects().len() as int,
                        *window,
                        mode,
                    )
                    &&& final(func).inv()
                    &&& final(func).seen() == old(func).seen() + rects_at(old(self).rects(), found)
                },
    {
        let found = self.find_in_window(window, mode);
        proof {
            assert forall|k: int| 0 <= k < found@.len() implies (#[trigger] found@[k])
                < self.bots@.len() by {
                assert(found@.contains(found@[k]));
            }
        }
        show_all(&mut *self.bots, &found, func);
    }

    /// Shows the handler the elements whose rectangle intersects `rect`.
    pub fn for_all_intersect_rect_mut<F: ElemHandler<T = T>>(&mut self, rect: &Rect, func: &mut F)
        requires
            old(func).inv(),
            old(self).wf(),
        ensures
            final(self).wf(),
            final(self).rects() == old(self).rects(),
            final(self).keys() == old(self).keys(),
            final(self).nodes() == old(self).nodes(),
            final(self).axis() == old(self).axis(),
            final(self).levels() == old(self).levels(),
            final(self).bucket() == old(self).bucket(),
            final(final(self).target())@ == final(old(self).target())@,
            exists|found: Seq<usize>|
                {
                    &&& found_exactly(
                        found,
                        old(self).rects(),
                        0,
                        old(self).rects().len() as int,
                        *rect,
                        RectMode::Intersect,
                    )
                    &&& final(func).inv()
                    &&& final(func).seen() == old(func).seen() + rects_at(old(self).rects(), found)
                },
    {
        self.for_all_in_window_mut(rect, RectMode::Intersect, func)
    }

    /// Shows the handler the elements whose rectangle lies inside `rect`.
    pub fn for_all_in_rect_mut<F: ElemHandler<T = T>>(&mut self, rect: &Rect, func: &mut F)
        requires
            old(func).inv(),
            old(self).wf(),
        ensures
            final(self).wf(),
            final(self).rects() == old(self).rects(),
            final(self).keys() == old(self).keys(),
            final(self).nodes() == old(self).nodes(),
            final(self).axis() == old(self).axis(),
            final(self).levels() == old(self).levels(),
            final(self).bucket() == old(self).bucket(),
            final(final(self).target())@ == final(old(self).target())@,
            exists|found: Seq<usize>|
                {
                    &&& found_exactly(
                        found,
                        old(self).rects(),
                        0,
                        old(self).rects().len() as int,
                        *rect,
                        RectMode::Inside,
                    )
                    &&& final(func).inv()
                    &&& final(func).seen() == old(func).seen() + rects_at(old(self).rects(), found)
                },
    {
        self.for_all_in_window_mut(rect, RectMode::Inside, func)
    }

    /// Shows the handler the elements whose rectangle does not lie inside
    /// `rect`.
    pub fn for_all_not_in_rect_mut<F: ElemHandler<T = T>>(&mut self, rect: &Rect, func: &mut F)
        requires
            old(func).inv(),
            old(self).wf(),
        ensures
            final(self).wf(),
            final(self).rects() == old(self).rects(),
            final(self).keys() == old(self).keys(),
            final(self).nodes() == old(self).nodes(),
            final(self).axis() == old(self).axis(),
            final(self).levels() == old(self).levels(),
            final(self).bucket() == old(self).bucket(),
            final(final(self).target())@ == final(old(self).target())@,
            exists|found: Seq<usize>|
                {
                    &&& found_exactly(
                        found,
                        old(self).rects(),
                        0,
                        old(self).rects().len() as int,
                        *rect,
                        RectMode::NotInside,
                    )
                    &&& final(func).inv()
                    &&& final(func).seen() == old(func).seen() + rects_at(old(self).rects(), found)
                },
    {
        self.for_all_in_window_mut(rect, RectMode::NotInside, func)
    }
}

} // verus!
