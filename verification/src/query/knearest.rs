//! The `k` elements nearest to a point, by the squared distance from the
//! point to their rectangles.

use vstd::prelude::*;
use core::marker::PhantomData;
use crate::geom::{Axis, Rect, Vec2, COORD_LIMIT};
use crate::node::Aabb;
use crate::query::rect::{show_all, ElemHandler};
use crate::tree::{Tree, Vistr};

verus! {

/// An element found near the point: where it stands and how far it is.
#[derive(Clone, Copy, Debug, PartialEq, Eq, Structural)]
pub struct Candidate {
    pub pos: usize,
    pub mag: i128,
}

/// The list names position `i`.
pub open spec fn holds_pos(h: Seq<Candidate>, i: int) -> bool {
    exists|j: int| 0 <= j < h.len() && (#[trigger] h[j]).pos == i
}

/// A list of at most `k` candidates: each names a position with its
/// distance, which `dists` holds position by position, no position twice,
/// nearest first.
pub open spec fn heap_ok(h: Seq<Candidate>, dists: Seq<int>, k: nat) -> bool {
    &&& h.len() <= k
    &&& forall|j: int|
        0 <= j < h.len() ==> (#[trigger] h[j]).pos < dists.len() && h[j].mag
            == dists[h[j].pos as int]
    &&& forall|i: int, j: int|
        0 <= i <= j < h.len() ==> (#[trigger] h[i]).mag <= (#[trigger] h[j]).mag
    &&& forall|i: int, j: int|
        0 <= i < j < h.len() ==> (#[trigger] h[i]).pos != (#[trigger] h[j]).pos
}

/// Position `i` has been taken into account: the list names it, or the
/// list is full and the element is no nearer than the last of the list.
pub open spec fn covered(h: Seq<Candidate>, dists: Seq<int>, k: nat, i: int) -> bool {
    holds_pos(h, i) || (h.len() == k && (k == 0 || dists[i] >= h.last().mag))
}

/// Whatever `before` has taken into account, `after` has too, and `after`
/// names nothing outside `lo..hi` that `before` did not name.
pub open spec fn extends(
    before: Seq<Candidate>,
    after: Seq<Candidate>,
    dists: Seq<int>,
    k: nat,
    lo: int,
    hi: int,
) -> bool {
    &&& forall|i: int|
        0 <= i < dists.len() && covered(before, dists, k, i) ==> #[trigger] covered(
            after,
            dists,
            k,
            i,
        )
    &&& forall|i: int| #[trigger] holds_pos(after, i) ==> holds_pos(before, i) || lo <= i < hi
}

/// Takes the element at `pos` into account: it enters the list at its
/// place by distance if the list is not full or if it is nearer than the
/// last of the list, which then leaves.
fn consider(
    heap: &mut Vec<Candidate>,
    k: usize,
    pos: usize,
    mag: i128,
    Ghost(dists): Ghost<Seq<int>>,
)
    requires
        heap_ok(old(heap)@, dists, k as nat),
        pos < dists.len(),
        mag == dists[pos as int],
        !holds_pos(old(heap)@, pos as int),
    ensures
        heap_ok(final(heap)@, dists, k as nat),
        covered(final(heap)@, dists, k as nat, pos as int),
        extends(old(heap)@, final(heap)@, dists, k as nat, pos as int, pos + 1),
{
    let ghost h0 = heap@;
    if k == 0 {
        return;
    }
    let mut left: Option<Candidate> = None;
    if heap.len() == k {
        if mag >= heap[k - 1].mag {
            return;
        }
        left = heap.pop();
    }
    let ghost h1 = heap@;
    let mut idx = heap.len();
    while idx > 0 && heap[idx - 1].mag > mag
        invariant
            idx <= heap@.len(),
            heap@ == h1,
            forall|j: int| idx <= j < h1.len() ==> (#[trigger] h1[j]).mag > mag,
        decreases idx,
    {
        idx -= 1;
    }
    let c = Candidate { pos, mag };
    heap.insert(idx, c);
    proof {
        let h2 = heap@;
        assert(h2 == h1.insert(idx as int, c));
        assert forall|j: int| 0 <= j < h1.len() implies #[trigger] h1[j] == h0[j] by {}
        assert forall|j: int| 0 <= j < h2.len() implies (#[trigger] h2[j]) == (if j < idx {
            h1[j]
        } else if j == idx {
            c
        } else {
            h1[j - 1]
        }) by {}
        // The list is in order, without a position twice.
        assert forall|i: int, j: int| 0 <= i <= j < h2.len() implies (#[trigger] h2[i]).mag <= (
        #[trigger] h2[j]).mag by {
            if i < idx && j < idx {
                assert(h1[i].mag <= h1[j].mag);
            } else if i < idx && j == idx {
                if idx > 0 {
                    assert(h1[i].mag <= h1[idx - 1].mag);
                }
            } else if i < idx && j > idx {
                assert(h1[i].mag <= h1[j - 1].mag);
            } else if i == idx && j > idx {
                assert(h1[j - 1].mag > mag);
            } else if i > idx {
                assert(h1[i - 1].mag <= h1[j - 1].mag);
            }
        }
        assert forall|i: int, j: int| 0 <= i < j < h2.len() implies (#[trigger] h2[i]).pos != (
        #[trigger] h2[j]).pos by {
            let a = if i < idx {
                i
            } else {
                i - 1
            };
            let b = if j < idx {
                j
            } else {
                j - 1
            };
            if i != idx && j != idx {
                assert(h1[a].pos != h1[b].pos);
            } else if i == idx {
                assert(h0[b].pos != pos);
            } else {
                assert(h0[a].pos != pos);
            }
        }
        assert(h2[idx as int].pos == pos);
        assert(holds_pos(h2, pos as int));
        // What the old list named, the new list names, but for the
        // candidate that left; that one is no nearer than the new last.
        assert forall|i: int| holds_pos(h1, i) implies holds_pos(h2, i) by {
            let j = choose|j: int| 0 <= j < h1.len() && (#[trigger] h1[j]).pos == i;
            if j < idx {
                assert(h2[j].pos == i);
            } else {
                assert(h2[j + 1].pos == i);
            }
        }
        assert forall|i: int| #[trigger] holds_pos(h2, i) implies holds_pos(h0, i) || i == pos by {
            let j = choose|j: int| 0 <= j < h2.len() && (#[trigger] h2[j]).pos == i;
            if j < idx {
                assert(h0[j].pos == i);
            } else if j > idx {
                assert(h0[j - 1].pos == i);
            }
        }
        assert forall|i: int|
            0 <= i < dists.len() && covered(h0, dists, k as nat, i) implies #[trigger] covered(
            h2,
            dists,
            k as nat,
            i,
        ) by {
            if h0.len() == k {
                let x = h0[k - 1];
                assert(h0.last() == x);
                assert(h2.len() == k);
                let last2 = h2[k - 1];
                assert(h2.last() == last2);
                assert(last2.mag <= x.mag) by {
                    if idx == k - 1 {
                    } else {
                        assert(h1[k - 2].mag <= h0[k - 1].mag);
                    }
                }
                if holds_pos(h0, i) {
                    let j = choose|j: int| 0 <= j < h0.len() && (#[trigger] h0[j]).pos == i;
                    if j == k - 1 {
                    } else {
                        assert(h1[j].pos == i);
                        assert(holds_pos(h1, i));
                    }
                }
            } else {
                let j = choose|j: int| 0 <= j < h0.len() && (#[trigger] h0[j]).pos == i;
                assert(h1[j].pos == i);
                assert(holds_pos(h1, i));
            }
        }
    }
}

/// How far an element is from a point: the measure by which the nearest
/// elements are chosen. An element need not be a rectangle, but it lies in
/// its rectangle and so is no nearer than the rectangle.
pub trait Knearest {
    type T: Aabb;

    /// The squared distance from `point` to the element.
    spec fn dist(&self, point: Vec2, elem: Self::T) -> int;

    /// An element is no nearer than its rectangle.
    proof fn lemma_no_nearer_than_rect(&self, point: Vec2, elem: Self::T)
        ensures
            self.dist(point, elem) >= elem.rect().dist2(point),
    ;

    fn distance_to_fine(&self, point: Vec2, elem: &Self::T) -> (d: i128)
        requires
            elem.rect().valid(),
            elem.rect().in_reach(),
            point.in_reach(),
        ensures
            d == self.dist(point, *elem),
    ;
}

/// The measure that takes each element for its rectangle.
pub struct RectDistance<T> {
    _p: PhantomData<T>,
}

impl<T: Aabb> RectDistance<T> {
    pub fn new() -> (r: RectDistance<T>) {
        RectDistance { _p: PhantomData }
    }
}

impl<T: Aabb> Knearest for RectDistance<T> {
    type T = T;

    open spec fn dist(&self, point: Vec2, elem: T) -> int {
        elem.rect().dist2(point)
    }

    proof fn lemma_no_nearer_than_rect(&self, point: Vec2, elem: T) {
    }

    fn distance_to_fine(&self, point: Vec2, elem: &T) -> (d: i128) {
        elem.get().distance_squared(point)
    }
}

/// The measure that takes each element for the point in the middle of
/// its rectangle.
pub struct CenterDistance<T> {
    _p: PhantomData<T>,
}

impl<T: Aabb> CenterDistance<T> {
    pub fn new() -> (r: CenterDistance<T>) {
        CenterDistance { _p: PhantomData }
    }
}

/// The middle of an interval, rounded down.
pub open spec fn middle(lo: int, hi: int) -> int {
    lo + (hi - lo) / 2
}

/// The squared distance from `p` to the middle of `rect`.
pub open spec fn center_dist2(rect: Rect, p: Vec2) -> int {
    let dx = middle(rect.x.start as int, rect.x.end as int) - p.x;
    let dy = middle(rect.y.start as int, rect.y.end as int) - p.y;
    dx * dx + dy * dy
}

/// The middle of a valid rectangle is no nearer than the rectangle.
pub proof fn lemma_center_no_nearer(rect: Rect, p: Vec2)
    requires
        rect.valid(),
    ensures
        center_dist2(rect, p) >= rect.dist2(p),
{
    let cx = middle(rect.x.start as int, rect.x.end as int) - p.x;
    let cy = middle(rect.y.start as int, rect.y.end as int) - p.y;
    let dx = crate::geom::clamped(p.x as int, rect.x.start as int, rect.x.end as int) - p.x;
    let dy = crate::geom::clamped(p.y as int, rect.y.start as int, rect.y.end as int) - p.y;
    assert(cx * cx >= dx * dx) by (nonlinear_arith)
        requires
            (0 <= dx <= cx) || (cx <= dx <= 0),
    ;
    assert(cy * cy >= dy * dy) by (nonlinear_arith)
        requires
            (0 <= dy <= cy) || (cy <= dy <= 0),
    ;
}

impl<T: Aabb> Knearest for CenterDistance<T> {
    type T = T;

    /// The squared distance to the middle of the rectangle; for a
    /// rectangle that is not valid, which has no middle, that to the
    /// rectangle.
    open spec fn dist(&self, point: Vec2, elem: T) -> int {
        if elem.rect().valid() {
            center_dist2(elem.rect(), point)
        } else {
            elem.rect().dist2(point)
        }
    }

    proof fn lemma_no_nearer_than_rect(&self, point: Vec2, elem: T) {
        if elem.rect().valid() {
            lemma_center_no_nearer(elem.rect(), point);
        }
    }

    fn distance_to_fine(&self, point: Vec2, elem: &T) -> (d: i128) {
        let rect = elem.get();
        let cx: i128 = rect.x.start as i128 + (rect.x.end as i128 - rect.x.start as i128) / 2;
        let cy: i128 = rect.y.start as i128 + (rect.y.end as i128 - rect.y.start as i128) / 2;
        let dx: i128 = cx - point.x as i128;
        let dy: i128 = cy - point.y as i128;
        proof {
            let lim: int = 2 * COORD_LIMIT;
            assert(0 <= dx * dx <= lim * lim) by (nonlinear_arith)
                requires
                    -lim <= dx <= lim,
            ;
            assert(0 <= dy * dy <= lim * lim) by (nonlinear_arith)
                requires
                    -lim <= dy <= lim,
            ;
            assert(lim * lim + lim * lim <= i128::MAX) by (nonlinear_arith)
                requires
                    lim == 2 * 0x3FFF_FFFF_FFFF_FFFF,
            ;
        }
        dx * dx + dy * dy
    }
}

/// The squared distances of the rectangles from `point`, position by
/// position.
pub open spec fn rect_dists(point: Vec2, r: Seq<Rect>) -> Seq<int> {
    Seq::new(r.len(), |i: int| r[i].dist2(point))
}

/// The distances of the elements from `point`, position by position.
pub open spec fn dists_of<H: Knearest>(handler: H, point: Vec2, elems: Seq<H::T>) -> Seq<int> {
    Seq::new(elems.len(), |i: int| handler.dist(point, elems[i]))
}

/// No element is nearer than its rectangle.
pub proof fn lemma_dists_bounded<H: Knearest>(handler: H, point: Vec2, elems: Seq<H::T>)
    ensures
        forall|i: int|
            0 <= i < elems.len() ==> (#[trigger] dists_of(handler, point, elems)[i])
                >= crate::model::rects_of(elems)[i].dist2(point),
{
    assert forall|i: int| 0 <= i < elems.len() implies (#[trigger] dists_of(
        handler,
        point,
        elems,
    )[i]) >= crate::model::rects_of(elems)[i].dist2(point) by {
        handler.lemma_no_nearer_than_rect(point, elems[i]);
    }
}

/// Every rectangle is small enough for squared distances.
pub open spec fn all_in_reach(r: Seq<Rect>) -> bool {
    forall|i: int| 0 <= i < r.len() ==> (#[trigger] r[i]).in_reach()
}

impl Rect {
    /// Whether the rectangle is small enough for squared distances.
    pub fn is_in_reach(&self) -> (r: bool)
        ensures
            r == self.in_reach(),
    {
        coordinate_in_reach(self.x.start) && coordinate_in_reach(self.x.end) && coordinate_in_reach(
            self.y.start,
        ) && coordinate_in_reach(self.y.end)
    }
}

impl Vec2 {
    /// Whether the point is small enough for squared distances.
    pub fn is_in_reach(&self) -> (r: bool)
        ensures
            r == self.in_reach(),
    {
        coordinate_in_reach(self.x) && coordinate_in_reach(self.y)
    }
}

/// Whether the coordinate is small enough for squared distances.
pub fn coordinate_in_reach(v: i64) -> (r: bool)
    ensures
        r == crate::geom::coord_in_reach(v as int),
{
    -COORD_LIMIT <= v && v <= COORD_LIMIT
}

/// Whether every element has a rectangle small enough for squared
/// distances: what a query for the nearest elements asks of a tree.
pub fn all_rects_in_reach<T: Aabb>(bots: &[T]) -> (r: bool)
    ensures
        r == all_in_reach(crate::model::rects_of(bots@)),
{
    let ghost rects = crate::model::rects_of(bots@);
    let mut i: usize = 0;
    while i < bots.len()
        invariant
            i <= bots@.len(),
            rects == crate::model::rects_of(bots@),
            forall|j: int| 0 <= j < i ==> (#[trigger] rects[j]).in_reach(),
        decreases bots@.len() - i,
    {
        proof {
            assert(rects[i as int] == bots@[i as int].rect());
        }
        if !bots[i].get().is_in_reach() {
            return false;
        }
        i += 1;
    }
    true
}

/// Taking more into account, twice over, is taking more into account.
pub proof fn lemma_extends_trans(
    a: Seq<Candidate>,
    b: Seq<Candidate>,
    c: Seq<Candidate>,
    dists: Seq<int>,
    k: nat,
    lo: int,
    mid: int,
    lo2: int,
    hi2: int,
)
    requires
        extends(a, b, dists, k, lo, mid),
        extends(b, c, dists, k, lo2, hi2),
    ensures
        forall|i: int|
            0 <= i < dists.len() && covered(a, dists, k, i) ==> #[trigger] covered(c, dists, k, i),
        forall|i: int| #[trigger]
            holds_pos(c, i) ==> holds_pos(a, i) || lo <= i < mid || lo2 <= i < hi2,
{
    assert forall|i: int| 0 <= i < dists.len() && covered(a, dists, k, i) implies #[trigger] covered(
        c,
        dists,
        k,
        i,
    ) by {
        assert(covered(b, dists, k, i));
    }
    assert forall|i: int| #[trigger] holds_pos(c, i) implies holds_pos(a, i) || lo <= i < mid || lo2
        <= i < hi2 by {
        if !(lo2 <= i < hi2) {
            assert(holds_pos(b, i));
        }
    }
}

/// An element on the far side of a line is at least as far from the point
/// as the line is.
pub proof fn lemma_far_side(rect: Rect, p: Vec2, axis: Axis, d: int)
    requires
        rect.valid(),
        (p.along(axis) <= d && rect.range(axis).start > d) || (p.along(axis) >= d && rect.range(
            axis,
        ).end < d),
    ensures
        rect.dist2(p) >= (d - p.along(axis)) * (d - p.along(axis)),
{
    let gap = d - p.along(axis);
    let dx = crate::geom::clamped(p.x as int, rect.x.start as int, rect.x.end as int) - p.x;
    let dy = crate::geom::clamped(p.y as int, rect.y.start as int, rect.y.end as int) - p.y;
    match axis {
        Axis::X => {
            assert(dx * dx >= gap * gap) by (nonlinear_arith)
                requires
                    (0 <= gap <= dx) || (dx <= gap <= 0),
            ;
            assert(dy * dy >= 0) by (nonlinear_arith);
        },
        Axis::Y => {
            assert(dy * dy >= gap * gap) by (nonlinear_arith)
                requires
                    (0 <= gap <= dy) || (dy <= gap <= 0),
            ;
            assert(dx * dx >= 0) by (nonlinear_arith);
        },
    }
}

/// Takes the elements at `lo..hi` into account, one after the other.
pub(crate) fn consider_range<H: Knearest>(
    handler: &H,
    elems: &[H::T],
    lo: usize,
    hi: usize,
    point: Vec2,
    k: usize,
    heap: &mut Vec<Candidate>,
)
    requires
        lo <= hi <= elems@.len(),
        crate::model::all_valid(crate::model::rects_of(elems@), 0, elems@.len() as int),
        all_in_reach(crate::model::rects_of(elems@)),
        point.in_reach(),
        heap_ok(old(heap)@, dists_of(*handler, point, elems@), k as nat),
        forall|i: int| lo <= i < hi ==> !holds_pos(old(heap)@, i),
    ensures
        heap_ok(final(heap)@, dists_of(*handler, point, elems@), k as nat),
        extends(
            old(heap)@,
            final(heap)@,
            dists_of(*handler, point, elems@),
            k as nat,
            lo as int,
            hi as int,
        ),
        forall|i: int|
            lo <= i < hi ==> covered(final(heap)@, dists_of(*handler, point, elems@), k as nat, i),
{
    let ghost r = crate::model::rects_of(elems@);
    let ghost dists = dists_of(*handler, point, elems@);
    let mut i = lo;
    while i < hi
        invariant
            lo <= i <= hi,
            hi <= elems@.len(),
            r == crate::model::rects_of(elems@),
            dists == dists_of(*handler, point, elems@),
            crate::model::all_valid(r, 0, elems@.len() as int),
            all_in_reach(r),
            point.in_reach(),
            heap_ok(heap@, dists, k as nat),
            extends(old(heap)@, heap@, dists, k as nat, lo as int, i as int),
            forall|j: int| lo <= j < i ==> covered(heap@, dists, k as nat, j),
            forall|j: int| lo <= j < hi ==> !holds_pos(old(heap)@, j),
        decreases hi - i,
    {
        let ghost before = heap@;
        proof {
            assert(r[i as int] == elems@[i as int].rect());
            assert(r[i as int].valid() && r[i as int].in_reach());
            if holds_pos(before, i as int) {
                assert(holds_pos(old(heap)@, i as int) || lo <= i < i);
            }
        }
        let mag = handler.distance_to_fine(point, &elems[i]);
        consider(heap, k, i, mag, Ghost(dists));
        proof {
            lemma_extends_trans(
                old(heap)@,
                before,
                heap@,
                dists,
                k as nat,
                lo as int,
                i as int,
                i as int,
                i + 1,
            );
        }
        i += 1;
    }
}

/// Takes the elements of the subtree `m` into account.
///
/// The child on the point's side of the divider is entered first. The
/// other child is passed over if the list is full and the divider is
/// farther from the point than the last of the list.
pub fn knearest_recurse<H: Knearest>(
    handler: &H,
    this_axis: Axis,
    m: Vistr,
    elems: &[H::T],
    point: Vec2,
    k: usize,
    heap: &mut Vec<Candidate>,
)
    requires
        m.wf(crate::model::rects_of(elems@), this_axis),
        m.end <= elems@.len(),
        crate::model::all_valid(crate::model::rects_of(elems@), 0, elems@.len() as int),
        all_in_reach(crate::model::rects_of(elems@)),
        point.in_reach(),
        heap_ok(old(heap)@, dists_of(*handler, point, elems@), k as nat),
        forall|i: int| m.start() <= i < m.end ==> !holds_pos(old(heap)@, i),
    ensures
        heap_ok(final(heap)@, dists_of(*handler, point, elems@), k as nat),
        extends(
            old(heap)@,
            final(heap)@,
            dists_of(*handler, point, elems@),
            k as nat,
            m.start(),
            m.end as int,
        ),
        forall|i: int|
            m.start() <= i < m.end ==> covered(
                final(heap)@,
                dists_of(*handler, point, elems@),
                k as nat,
                i,
            ),
    decreases m.height,
{
    let ghost r = crate::model::rects_of(elems@);
    let ghost dists = dists_of(*handler, point, elems@);
    let ghost h0 = heap@;
    let (nn, rest) = m.next();
    proof {
        m.lemma_root(r, this_axis);
    }
    consider_range(handler, elems, nn.start, nn.end, point, k, heap);
    let (left, right) = match rest {
        None => {
            return;
        },
        Some(children) => children,
    };
    let div = match nn.div {
        None => {
            return;
        },
        Some(div) => div,
    };
    proof {
        m.lemma_children(r, this_axis);
    }
    let ghost h1 = heap@;
    let near_side = point.get_axis(this_axis);
    let left_first = near_side < div;
    let (near, far) = if left_first {
        (left, right)
    } else {
        (right, left)
    };
    proof {
        assert forall|i: int| near.start() <= i < near.end implies !holds_pos(h1, i) by {
            if holds_pos(h1, i) {
                assert(holds_pos(h0, i) || nn.start <= i < nn.end);
            }
        }
    }
    knearest_recurse(handler, this_axis.next(), near, elems, point, k, heap);
    let ghost h2 = heap@;
    proof {
        lemma_extends_trans(
            h0,
            h1,
            h2,
            dists,
            k as nat,
            nn.start as int,
            nn.end as int,
            near.start(),
            near.end as int,
        );
    }
    let gap: i128 = if left_first {
        div as i128 - near_side as i128
    } else {
        near_side as i128 - div as i128
    };
    let mut skip = false;
    if k > 0 && heap.len() == k {
        let worst = heap[k - 1].mag;
        if gap > 2 * (COORD_LIMIT as i128) {
            skip = true;
        } else {
            proof {
                let lim: int = 2 * COORD_LIMIT;
                assert(0 <= gap * gap <= i128::MAX) by (nonlinear_arith)
                    requires
                        0 <= gap <= lim,
                        lim == 2 * 0x3FFF_FFFF_FFFF_FFFF,
                ;
            }
            skip = gap * gap > worst;
        }
    }
    if skip {
        proof {
            // Nothing on the far side is nearer than the last of the list.
            lemma_dists_bounded(*handler, point, elems@);
            assert forall|i: int| far.start() <= i < far.end implies covered(
                h2,
                dists,
                k as nat,
                i,
            ) by {
                assert(r[i].valid() && r[i].in_reach());
                assert(dists[i] >= r[i].dist2(point));
                lemma_far_side(r[i], point, this_axis, div as int);
                crate::geom::lemma_dist2_fits(r[i], point);
                let g = div - point.along(this_axis);
                assert(g * g == gap * gap) by (nonlinear_arith)
                    requires
                        g == gap || g == -gap,
                ;
                if gap > 2 * COORD_LIMIT {
                    let dx = crate::geom::clamped(
                        point.along(this_axis) as int,
                        r[i].range(this_axis).start as int,
                        r[i].range(this_axis).end as int,
                    ) - point.along(this_axis);
                    assert(false) by {
                        assert(-2 * COORD_LIMIT <= dx <= 2 * COORD_LIMIT);
                    }
                }
                assert(h2.last() == h2[k - 1]);
            }
        }
    } else {
        proof {
            assert forall|i: int| far.start() <= i < far.end implies !holds_pos(h2, i) by {
                if holds_pos(h2, i) {
                    assert(holds_pos(h0, i) || nn.start <= i < nn.end || near.start() <= i
                        < near.end);
                }
            }
        }
        knearest_recurse(handler, this_axis.next(), far, elems, point, k, heap);
    }
    proof {
        let h3 = heap@;
        assert(extends(h2, h3, dists, k as nat, far.start(), far.end as int));
        assert forall|i: int| 0 <= i < dists.len() && covered(h0, dists, k as nat, i) implies #[trigger] covered(
            h3,
            dists,
            k as nat,
            i,
        ) by {
            assert(covered(h2, dists, k as nat, i));
        }
        assert forall|i: int| #[trigger] holds_pos(h3, i) implies holds_pos(h0, i) || m.start() <= i
            < m.end by {
            if !(far.start() <= i < far.end) {
                assert(holds_pos(h2, i));
            }
        }
        assert forall|i: int| m.start() <= i < m.end implies covered(h3, dists, k as nat, i) by {
            if i < nn.end {
                assert(covered(h1, dists, k as nat, i));
                assert(covered(h2, dists, k as nat, i));
            } else if near.start() <= i < near.end {
                assert(covered(h2, dists, k as nat, i));
            }
        }
    }
}

/// The positions that the list names, in the order of the list.
pub open spec fn positions(h: Seq<Candidate>) -> Seq<int> {
    Seq::new(h.len(), |j: int| h[j].pos as int)
}

/// `h` is an answer to the query for the `k` nearest of the elements whose
/// distances `dists` holds: it names `k` elements, or all if there are
/// fewer, nearest first, each with its distance, and no element that it
/// does not name is nearer than its last.
pub open spec fn is_k_nearest(h: Seq<Candidate>, dists: Seq<int>, k: nat) -> bool {
    &&& heap_ok(h, dists, k)
    &&& forall|i: int| 0 <= i < dists.len() ==> covered(h, dists, k, i)
    &&& h.len() == (if k <= dists.len() {
        k
    } else {
        dists.len()
    })
}

/// A list that has taken every element into account names `k` elements, or
/// all if there are fewer.
pub proof fn lemma_all_covered(h: Seq<Candidate>, dists: Seq<int>, k: nat)
    requires
        heap_ok(h, dists, k),
        forall|i: int| 0 <= i < dists.len() ==> covered(h, dists, k, i),
    ensures
        is_k_nearest(h, dists, k),
{
    let ps = positions(h);
    let all = vstd::set_lib::set_int_range(0, dists.len() as int);
    vstd::set_lib::lemma_int_range(0, dists.len() as int);
    vstd::seq_lib::seq_to_set_is_finite(ps);
    assert(ps.no_duplicates()) by {
        assert forall|i: int, j: int| 0 <= i < ps.len() && 0 <= j < ps.len() && i != j implies ps[i]
            != ps[j] by {
            if i < j {
                assert(h[i].pos != h[j].pos);
            } else {
                assert(h[j].pos != h[i].pos);
            }
        }
    }
    ps.unique_seq_to_set();
    assert(ps.to_set().subset_of(all)) by {
        assert forall|x: int| ps.to_set().contains(x) implies all.contains(x) by {
            let j = choose|j: int| 0 <= j < ps.len() && ps[j] == x;
            assert(h[j].pos < dists.len());
        }
    }
    vstd::set_lib::lemma_len_subset(ps.to_set(), all);
    if h.len() < k {
        assert(all.subset_of(ps.to_set())) by {
            assert forall|x: int| all.contains(x) implies ps.to_set().contains(x) by {
                assert(covered(h, dists, k, x));
                let j = choose|j: int| 0 <= j < h.len() && (#[trigger] h[j]).pos == x;
                assert(ps[j] == x);
            }
        }
        vstd::set_lib::lemma_len_subset(all, ps.to_set());
    }
}

/// Any two answers to one query give the same distances in the same
/// order: the nearest elements are determined up to elements that are
/// equally far. So the tree's answer has the distances of brute force's
/// answer.
pub proof fn lemma_k_nearest_unique(h1: Seq<Candidate>, h2: Seq<Candidate>, dists: Seq<int>, k: nat)
    requires
        is_k_nearest(h1, dists, k),
        is_k_nearest(h2, dists, k),
    ensures
        h1.len() == h2.len(),
        forall|j: int| 0 <= j < h1.len() ==> (#[trigger] h1[j]).mag == h2[j].mag,
{
    assert forall|j: int| 0 <= j < h1.len() implies (#[trigger] h1[j]).mag == h2[j].mag by {
        lemma_not_nearer(h1, h2, dists, k, j);
        lemma_not_nearer(h2, h1, dists, k, j);
    }
}

/// An answer cannot have, at any place, a smaller distance than another
/// answer to the same query has there.
proof fn lemma_not_nearer(h1: Seq<Candidate>, h2: Seq<Candidate>, dists: Seq<int>, k: nat, j: int)
    requires
        is_k_nearest(h1, dists, k),
        is_k_nearest(h2, dists, k),
        0 <= j < h1.len(),
    ensures
        h1[j].mag >= h2[j].mag,
{
    if h1[j].mag >= h2[j].mag {
        return ;
    }
    let a = positions(h1.subrange(0, j + 1));
    let b = positions(h2.subrange(0, j));
    assert(a.no_duplicates()) by {
        assert forall|x: int, y: int| 0 <= x < a.len() && 0 <= y < a.len() && x != y implies a[x]
            != a[y] by {
            if x < y {
                assert(h1[x].pos != h1[y].pos);
            } else {
                assert(h1[y].pos != h1[x].pos);
            }
        }
    }
    a.unique_seq_to_set();
    b.lemma_cardinality_of_set();
    vstd::seq_lib::seq_to_set_is_finite(b);
    assert(a.to_set().subset_of(b.to_set())) by {
        assert forall|x: int| a.to_set().contains(x) implies b.to_set().contains(x) by {
            let i = choose|i: int| 0 <= i < a.len() && a[i] == x;
            assert(h1[i].pos == x);
            assert(h1[i].mag <= h1[j].mag);
            assert(h1[i].mag == dists[x]);
            assert(covered(h2, dists, k, x));
            assert(h2[j].mag <= h2[h2.len() - 1].mag);
            assert(holds_pos(h2, x));
            let t = choose|t: int| 0 <= t < h2.len() && (#[trigger] h2[t]).pos == x;
            if t >= j {
                assert(h2[j].mag <= h2[t].mag);
            }
            assert(b[t] == x);
        }
    }
    vstd::set_lib::lemma_len_subset(a.to_set(), b.to_set());
}

/// An element found near the point, with its squared distance.
pub struct KnearestResult<'a, T> {
    pub bot: &'a T,
    pub mag: i128,
}

impl<'a, T: Aabb> Tree<'a, T> {
    /// Where the `num` elements nearest to `point` stand, nearest first,
    /// each with its distance as `handler` measures it.
    pub fn k_nearest_by<H: Knearest<T = T>>(&self, handler: &H, point: Vec2, num: usize) -> (res: Vec<
        Candidate,
    >)
        requires
            self.wf(),
            all_in_reach(self.rects()),
            point.in_reach(),
        ensures
            is_k_nearest(res@, dists_of(*handler, point, self.elements()), num as nat),
    {
        let mut heap: Vec<Candidate> = Vec::new();
        let m = self.vistr();
        proof {
            assert forall|i: int| 0 <= i < self.rects().len() implies !holds_pos(heap@, i) by {}
        }
        knearest_recurse(handler, self.axis, m, &*self.bots, point, num, &mut heap);
        proof {
            lemma_all_covered(heap@, dists_of(*handler, point, self.elements()), num as nat);
        }
        heap
    }

    /// Where the `num` elements nearest to `point` stand, nearest first,
    /// each with the squared distance of its rectangle.
    pub fn k_nearest_positions(&self, point: Vec2, num: usize) -> (res: Vec<Candidate>)
        requires
            self.wf(),
            all_in_reach(self.rects()),
            point.in_reach(),
        ensures
            is_k_nearest(res@, rect_dists(point, self.rects()), num as nat),
    {
        let handler = RectDistance::<T>::new();
        proof {
            assert(dists_of(handler, point, self.elements()) =~= rect_dists(point, self.rects()));
        }
        self.k_nearest_by(&handler, point, num)
    }

    /// The `num` elements nearest to `point`, nearest first, each with the
    /// squared distance of its rectangle. Of elements that are equally
    /// far, any may be named.
    pub fn k_nearest(&self, point: Vec2, num: usize) -> (res: Vec<KnearestResult<T>>)
        requires
            self.wf(),
            all_in_reach(self.rects()),
            point.in_reach(),
        ensures
            exists|h: Seq<Candidate>|
                {
                    &&& is_k_nearest(h, rect_dists(point, self.rects()), num as nat)
                    &&& res@.len() == h.len()
                    &&& forall|j: int|
                        0 <= j < h.len() ==> (#[trigger] res@[j]).mag == h[j].mag && *res@[j].bot
                            == self.elements()[h[j].pos as int]
                },
    {
        let found = self.k_nearest_positions(point, num);
        let mut res: Vec<KnearestResult<T>> = Vec::new();
        let mut j: usize = 0;
        while j < found.len()
            invariant
                j <= found@.len(),
                res@.len() == j,
                self.elements() == self.bots@,
                forall|t: int| 0 <= t < found@.len() ==> (#[trigger] found@[t]).pos < self.bots@.len(),
                forall|t: int|
                    0 <= t < j ==> (#[trigger] res@[t]).mag == found@[t].mag && *res@[t].bot
                        == self.bots@[found@[t].pos as int],
            decreases found@.len() - j,
        {
            let c = found[j];
            res.push(KnearestResult { bot: &self.bots[c.pos], mag: c.mag });
            j += 1;
        }
        res
    }

    /// Shows the handler the `num` elements nearest to `point`, nearest
    /// first, and returns where they stand and how far their rectangles
    /// are.
    pub fn k_nearest_mut<F: ElemHandler<T = T>>(&mut self, point: Vec2, num: usize, func: &mut F) -> (res:
        Vec<Candidate>)
        requires
            old(self).wf(),
            all_in_reach(old(self).rects()),
            point.in_reach(),
            old(func).inv(),
        ensures
            final(self).wf(),
            final(self).rects() == old(self).rects(),
            final(self).keys() == old(self).keys(),
            final(self).nodes() == old(self).nodes(),
            final(self).axis() == old(self).axis(),
            final(self).levels() == old(self).levels(),
            final(self).bucket() == old(self).bucket(),
            final(final(self).target())@ == final(old(self).target())@,
            final(func).inv(),
            is_k_nearest(res@, rect_dists(point, old(self).rects()), num as nat),
            final(func).seen() == old(func).seen() + Seq::new(
                res@.len(),
                |j: int| old(self).rects()[res@[j].pos as int],
            ),
    {
        let found = self.k_nearest_positions(point, num);
        let mut order: Vec<usize> = Vec::new();
        let mut j: usize = 0;
        while j < found.len()
            invariant
                j <= found@.len(),
                order@.len() == j,
                forall|t: int| 0 <= t < j ==> (#[trigger] order@[t]) == found@[t].pos,
            decreases found@.len() - j,
        {
            order.push(found[j].pos);
            j += 1;
        }
        show_all(&mut *self.bots, &order, func);
        proof {
            assert(crate::query::rect::rects_at(old(self).rects(), order@) =~= Seq::new(
                found@.len(),
                |j: int| old(self).rects()[found@[j].pos as int],
            ));
        }
        found
    }
}

} // verus!
