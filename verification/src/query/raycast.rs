//! Casting a ray: the elements that the ray meets first.

use vstd::prelude::*;
use core::marker::PhantomData;
use crate::geom::{whole_steps, Axis, Ray, Rect, RAY_LIMIT};
use crate::node::Aabb;
use crate::query::rect::{show_all, ElemHandler};
use crate::tree::{Tree, Vistr};

verus! {

/// Whether a ray met anything.
#[derive(Debug, PartialEq, Eq)]
pub enum CastResult<X> {
    Hit(X),
    NoHit,
}

/// The elements met first so far: where they stand, and where along the
/// ray they are met.
pub struct Closest {
    pub found: Vec<usize>,
    pub tval: i64,
}

/// Every rectangle is valid and small enough for casting rays.
pub open spec fn all_castable(r: Seq<Rect>) -> bool {
    forall|i: int| 0 <= i < r.len() ==> (#[trigger] r[i]).valid() && r[i].in_cast_reach()
}

/// Whether the coordinate is small enough for casting rays.
pub fn coordinate_castable(v: i64) -> (r: bool)
    ensures
        r == crate::geom::coord_in_cast_reach(v as int),
{
    -RAY_LIMIT <= v && v <= RAY_LIMIT
}

impl Ray {
    /// Whether origin and direction are small enough for casting.
    pub fn is_in_reach(&self) -> (r: bool)
        ensures
            r == self.in_reach(),
    {
        coordinate_castable(self.point.x) && coordinate_castable(self.point.y)
            && coordinate_castable(self.dir.x) && coordinate_castable(self.dir.y)
    }
}

/// Whether every element has a valid rectangle small enough for casting
/// rays: what a ray cast asks of a tree.
pub fn all_rects_castable<T: Aabb>(bots: &[T]) -> (r: bool)
    ensures
        r == all_castable(crate::model::rects_of(bots@)),
{
    let ghost rects = crate::model::rects_of(bots@);
    let mut i: usize = 0;
    while i < bots.len()
        invariant
            i <= bots@.len(),
            rects == crate::model::rects_of(bots@),
            forall|j: int| 0 <= j < i ==> (#[trigger] rects[j]).valid() && rects[j].in_cast_reach(),
        decreases bots@.len() - i,
    {
        proof {
            assert(rects[i as int] == bots@[i as int].rect());
        }
        let rect = bots[i].get();
        let ok = rect.is_valid() && coordinate_castable(rect.x.start) && coordinate_castable(
            rect.x.end,
        ) && coordinate_castable(rect.y.start) && coordinate_castable(rect.y.end);
        if !ok {
            return false;
        }
        i += 1;
    }
    true
}

/// Where a ray meets an element: the measure by which the first elements
/// are chosen. An element need not be a rectangle, but it lies in its
/// rectangle, so that a ray meets it only where it has met the rectangle.
pub trait RayCast {
    type T: Aabb;

    /// Where along `ray` it meets the element, or `None` if it does not.
    spec fn fine(&self, ray: Ray, elem: Self::T) -> Option<i64>;

    /// A ray meets an element no earlier than its rectangle.
    proof fn lemma_no_earlier_than_rect(&self, ray: Ray, elem: Self::T)
        ensures
            self.fine(ray, elem) is Some ==> ray.cast(elem.rect()) is Some && ray.cast(
                elem.rect(),
            )->0 <= self.fine(ray, elem)->0,
    ;

    fn cast_to_fine(&self, ray: &Ray, elem: &Self::T) -> (r: Option<i64>)
        requires
            elem.rect().valid(),
            elem.rect().in_cast_reach(),
            ray.in_reach(),
        ensures
            r == self.fine(*ray, *elem),
    ;
}

/// The measure that takes each element for its rectangle.
pub struct RectCast<T> {
    _p: PhantomData<T>,
}

impl<T: Aabb> RectCast<T> {
    pub fn new() -> (r: RectCast<T>) {
        RectCast { _p: PhantomData }
    }
}

impl<T: Aabb> RayCast for RectCast<T> {
    type T = T;

    open spec fn fine(&self, ray: Ray, elem: T) -> Option<i64> {
        ray.cast(elem.rect())
    }

    proof fn lemma_no_earlier_than_rect(&self, ray: Ray, elem: T) {
    }

    fn cast_to_fine(&self, ray: &Ray, elem: &T) -> (r: Option<i64>) {
        ray.cast_to_rect(elem.get())
    }
}

/// Where the ray meets the rectangles, position by position.
pub open spec fn rect_casts(ray: Ray, r: Seq<Rect>) -> Seq<Option<i64>> {
    Seq::new(r.len(), |i: int| ray.cast(r[i]))
}

/// Where the ray meets the elements, position by position.
pub open spec fn casts_of<H: RayCast>(handler: H, ray: Ray, elems: Seq<H::T>) -> Seq<Option<i64>> {
    Seq::new(elems.len(), |i: int| handler.fine(ray, elems[i]))
}

/// A ray meets no element earlier than its rectangle.
pub proof fn lemma_casts_bounded<H: RayCast>(handler: H, ray: Ray, elems: Seq<H::T>)
    ensures
        forall|i: int|
            0 <= i < elems.len() && (#[trigger] casts_of(handler, ray, elems)[i]) is Some
                ==> ray.cast(crate::model::rects_of(elems)[i]) is Some && ray.cast(
                crate::model::rects_of(elems)[i],
            )->0 <= casts_of(handler, ray, elems)[i]->0,
{
    assert forall|i: int|
        0 <= i < elems.len() && (#[trigger] casts_of(handler, ray, elems)[i]) is Some implies ray.cast(
        crate::model::rects_of(elems)[i],
    ) is Some && ray.cast(crate::model::rects_of(elems)[i])->0 <= casts_of(
        handler,
        ray,
        elems,
    )[i]->0 by {
        handler.lemma_no_earlier_than_rect(ray, elems[i]);
    }
}

/// What has been found is sound: every position found is met at `tval`,
/// no position is found twice, and something has been found.
pub open spec fn closest_ok(best: Option<Closest>, casts: Seq<Option<i64>>) -> bool {
    match best {
        None => true,
        Some(c) => {
            &&& c.found@.len() > 0
            &&& c.found@.no_duplicates()
            &&& forall|j: int|
                0 <= j < c.found@.len() ==> (#[trigger] c.found@[j]) < casts.len()
                    && casts[c.found@[j] as int] == Some(c.tval)
        },
    }
}

/// Position `i` has been taken into account: the ray does not meet the
/// element, or it meets it later than what has been found, or the element
/// is among what has been found.
pub open spec fn seen_by(best: Option<Closest>, casts: Seq<Option<i64>>, i: int) -> bool {
    match casts[i] {
        None => true,
        Some(t) => match best {
            None => false,
            Some(c) => c.tval < t || (c.tval == t && lists(c.found@, i)),
        },
    }
}

/// The list names position `i`.
pub open spec fn lists(found: Seq<usize>, i: int) -> bool {
    exists|j: int| 0 <= j < found.len() && (#[trigger] found[j]) == i
}

/// The positions named by `best`.
pub open spec fn names(best: Option<Closest>, i: int) -> bool {
    match best {
        None => false,
        Some(c) => lists(c.found@, i),
    }
}

/// Whatever `before` has taken into account, `after` has too, and `after`
/// names nothing outside `lo..hi` that `before` did not name.
pub open spec fn advances(
    before: Option<Closest>,
    after: Option<Closest>,
    casts: Seq<Option<i64>>,
    lo: int,
    hi: int,
) -> bool {
    &&& forall|i: int|
        0 <= i < casts.len() && seen_by(before, casts, i) ==> #[trigger] seen_by(after, casts, i)
    &&& forall|i: int| #[trigger] names(after, i) ==> names(before, i) || lo <= i < hi
}

/// What has been found once an element at `pos` that the ray meets at
/// `t` is taken into account: the element alone if nothing was found or
/// if it is met earlier, the element with the others if it is met where
/// they are, and what was found before if it is met later.
pub open spec fn with_hit(best: Option<(Seq<usize>, i64)>, pos: usize, t: i64) -> (Seq<usize>, i64) {
    match best {
        None => (seq![pos], t),
        Some(c) => if t < c.1 {
            (seq![pos], t)
        } else if t == c.1 {
            (c.0.push(pos), t)
        } else {
            c
        },
    }
}

/// What `best` holds, as plain values.
pub open spec fn plain(best: Option<Closest>) -> Option<(Seq<usize>, i64)> {
    match best {
        None => None,
        Some(c) => Some((c.found@, c.tval)),
    }
}

/// Takes the element at `pos`, which the ray meets at `t`, into account.
pub fn take_hit(best: Option<Closest>, pos: usize, t: i64) -> (res: Closest)
    ensures
        (res.found@, res.tval) == with_hit(plain(best), pos, t),
{
    match best {
        None => {
            let mut found: Vec<usize> = Vec::new();
            found.push(pos);
            Closest { found, tval: t }
        },
        Some(c) => {
            if t < c.tval {
                let mut found: Vec<usize> = Vec::new();
                found.push(pos);
                Closest { found, tval: t }
            } else if t == c.tval {
                let mut found = c.found;
                found.push(pos);
                Closest { found, tval: t }
            } else {
                c
            }
        },
    }
}

/// Takes the element at `pos`, which the ray meets at `t`, into account,
/// where `casts` holds what the ray meets.
fn consider_hit(best: Option<Closest>, pos: usize, t: i64, Ghost(casts): Ghost<Seq<Option<i64>>>) -> (res:
    Option<Closest>)
    requires
        closest_ok(best, casts),
        pos < casts.len(),
        casts[pos as int] == Some(t),
        !names(best, pos as int),
    ensures
        closest_ok(res, casts),
        seen_by(res, casts, pos as int),
        advances(best, res, casts, pos as int, pos + 1),
{
    let ghost before = plain(best);
    let taken = take_hit(best, pos, t);
    let res = Some(taken);
    proof {
        let after = res->0.found@;
        match before {
            None => {
                assert(after[0] == pos);
                assert(lists(after, pos as int));
                assert forall|i: int| #[trigger] names(res, i) implies i == pos by {
                    let j = choose|j: int| 0 <= j < after.len() && (#[trigger] after[j]) == i;
                }
            },
            Some(c) => {
                if t < c.1 {
                    assert(after[0] == pos);
                    assert(lists(after, pos as int));
                    assert forall|i: int| #[trigger] names(res, i) implies i == pos by {
                        let j = choose|j: int| 0 <= j < after.len() && (#[trigger] after[j]) == i;
                    }
                } else if t == c.1 {
                    let old_found = c.0;
                    assert(after == old_found.push(pos));
                    assert(after[old_found.len() as int] == pos);
                    assert(lists(after, pos as int));
                    assert forall|i: int| lists(old_found, i) implies lists(after, i) by {
                        let j = choose|j: int|
                            0 <= j < old_found.len() && (#[trigger] old_found[j]) == i;
                        assert(after[j] == i);
                    }
                    assert forall|i: int, j: int|
                        0 <= i < after.len() && 0 <= j < after.len() && i != j implies after[i]
                        != after[j] by {
                        if i == old_found.len() {
                            assert(old_found[j] == after[j]);
                            assert(lists(old_found, after[j] as int));
                        } else if j == old_found.len() {
                            assert(old_found[i] == after[i]);
                            assert(lists(old_found, after[i] as int));
                        }
                    }
                    assert forall|i: int| #[trigger] names(res, i) implies names(best, i) || i
                        == pos by {
                        let j = choose|j: int| 0 <= j < after.len() && (#[trigger] after[j]) == i;
                        if j < old_found.len() {
                            assert(old_found[j] == i);
                        }
                    }
                    assert forall|i: int|
                        0 <= i < casts.len() && seen_by(best, casts, i) implies #[trigger] seen_by(
                        res,
                        casts,
                        i,
                    ) by {}
                } else {
                    assert forall|i: int| #[trigger] names(res, i) implies names(best, i) by {}
                }
            },
        }
    }
    res
}

/// Casts the ray to the elements at `lo..hi`, one after the other. An
/// element whose rectangle the ray misses, or meets later than what has
/// been found, is passed over.
pub(crate) fn cast_range<H: RayCast>(
    handler: &H,
    elems: &[H::T],
    lo: usize,
    hi: usize,
    ray: &Ray,
    best: Option<Closest>,
) -> (res: Option<Closest>)
    requires
        lo <= hi <= elems@.len(),
        all_castable(crate::model::rects_of(elems@)),
        ray.in_reach(),
        closest_ok(best, casts_of(*handler, *ray, elems@)),
        forall|i: int| lo <= i < hi ==> !names(best, i),
    ensures
        closest_ok(res, casts_of(*handler, *ray, elems@)),
        advances(best, res, casts_of(*handler, *ray, elems@), lo as int, hi as int),
        forall|i: int| lo <= i < hi ==> seen_by(res, casts_of(*handler, *ray, elems@), i),
{
    let ghost r = crate::model::rects_of(elems@);
    let ghost casts = casts_of(*handler, *ray, elems@);
    let mut cur = best;
    let mut i = lo;
    proof {
        lemma_casts_bounded(*handler, *ray, elems@);
    }
    while i < hi
        invariant
            lo <= i <= hi,
            hi <= elems@.len(),
            r == crate::model::rects_of(elems@),
            casts == casts_of(*handler, *ray, elems@),
            forall|j: int|
                0 <= j < elems@.len() && (#[trigger] casts[j]) is Some ==> ray.cast(r[j]) is Some
                    && ray.cast(r[j])->0 <= casts[j]->0,
            all_castable(r),
            ray.in_reach(),
            closest_ok(cur, casts),
            advances(best, cur, casts, lo as int, i as int),
            forall|j: int| lo <= j < i ==> seen_by(cur, casts, j),
            forall|j: int| lo <= j < hi ==> !names(best, j),
        decreases hi - i,
    {
        let ghost before = cur;
        proof {
            assert(r[i as int] == elems@[i as int].rect());
            assert(r[i as int].valid() && r[i as int].in_cast_reach());
            if names(before, i as int) {
                assert(names(best, i as int) || lo <= i < i);
            }
        }
        let on_rect = ray.cast_to_rect(elems[i].get());
        let worth = match (&on_rect, &cur) {
            (None, _) => false,
            (Some(_), None) => true,
            (Some(t), Some(c)) => *t <= c.tval,
        };
        if worth {
            match handler.cast_to_fine(ray, &elems[i]) {
                Some(t) => {
                    cur = consider_hit(cur, i, t, Ghost(casts));
                },
                None => {},
            }
        }
        proof {
            assert forall|j: int| 0 <= j < casts.len() && seen_by(best, casts, j) implies #[trigger] seen_by(
                cur,
                casts,
                j,
            ) by {
                assert(seen_by(before, casts, j));
            }
            assert forall|j: int| #[trigger] names(cur, j) implies names(best, j) || lo <= j < i
                + 1 by {
                if j != i {
                    assert(names(before, j));
                }
            }
            assert forall|j: int| lo <= j < i + 1 implies seen_by(cur, casts, j) by {
                if j < i {
                    assert(seen_by(before, casts, j));
                }
            }
        }
        i += 1;
    }
    cur
}

/// Whether what has been found is met before the ray, which heads for the
/// divider, reaches it. A divider too far out for the arithmetic counts
/// as reached at once.
fn found_before_divider(best: &Option<Closest>, origin: i64, heading: i64, div: i64) -> (r: bool)
    requires
        crate::geom::coord_in_cast_reach(origin as int),
        crate::geom::coord_in_cast_reach(heading as int),
        (origin < div && heading > 0) || (origin >= div && heading < 0),
    ensures
        r == (best is Some && crate::geom::coord_in_cast_reach(div as int) && best->0.tval
            < crate::geom::quot(div - origin, heading as int)),
{
    if div < -RAY_LIMIT || div > RAY_LIMIT {
        return false;
    }
    let steps = if heading > 0 {
        whole_steps(div - origin, heading)
    } else {
        whole_steps(origin - div, -heading)
    };
    match best {
        None => false,
        Some(c) => c.tval < steps,
    }
}

/// Casts the ray to the elements of the subtree `m`.
///
/// A node whose span lies behind the ray along its axis is passed over.
/// The child on the origin's side of the divider is entered first. The
/// other child is passed over where the ray leads away from it, and where
/// what has been found is met before the ray reaches the divider.
pub fn raycast_recurse<H: RayCast>(
    handler: &H,
    this_axis: Axis,
    m: Vistr,
    elems: &[H::T],
    ray: &Ray,
    best: Option<Closest>,
) -> (res: Option<Closest>)
    requires
        m.wf(crate::model::rects_of(elems@), this_axis),
        m.end <= elems@.len(),
        all_castable(crate::model::rects_of(elems@)),
        ray.in_reach(),
        closest_ok(best, casts_of(*handler, *ray, elems@)),
        forall|i: int| m.start() <= i < m.end ==> !names(best, i),
    ensures
        closest_ok(res, casts_of(*handler, *ray, elems@)),
        advances(best, res, casts_of(*handler, *ray, elems@), m.start(), m.end as int),
        forall|i: int|
            m.start() <= i < m.end ==> seen_by(res, casts_of(*handler, *ray, elems@), i),
    decreases m.height,
{
    let ghost r = crate::model::rects_of(elems@);
    let ghost casts = casts_of(*handler, *ray, elems@);
    let (nn, rest) = m.next();
    proof {
        m.lemma_root(r, this_axis);
        lemma_casts_bounded(*handler, *ray, elems@);
    }
    let origin = ray.point.get_axis(this_axis);
    let heading = ray.dir.get_axis(this_axis);
    let behind = match nn.cont {
        None => true,
        Some(cont) => (origin < cont.start && heading <= 0) || (origin > cont.end && heading >= 0),
    };
    let here = if behind {
        proof {
            assert forall|i: int| nn.start <= i < nn.end implies seen_by(best, casts, i) by {
                assert(r[i].valid());
                assert((nn.cont->0).encloses(r[i].range(this_axis)));
                lemma_away_is_miss(*ray, r[i], this_axis);
                assert(casts[i] is None);
            }
        }
        best
    } else {
        cast_range(handler, elems, nn.start, nn.end, ray, best)
    };
    let ghost h1 = here;
    let (left, right) = match rest {
        None => {
            return here;
        },
        Some(children) => children,
    };
    let div = match nn.div {
        None => {
            return here;
        },
        Some(div) => div,
    };
    proof {
        m.lemma_children(r, this_axis);
    }
    let left_first = origin < div;
    let (near, far) = if left_first {
        (left, right)
    } else {
        (right, left)
    };
    // The ray leads away from the far side if it does not head for the
    // divider.
    let far_lost = if left_first {
        heading <= 0
    } else {
        heading >= 0
    };
    proof {
        assert forall|i: int| near.start() <= i < near.end implies !names(h1, i) by {
            if names(h1, i) {
                assert(names(best, i) || nn.start <= i < nn.end);
            }
        }
    }
    let after_near = raycast_recurse(handler, this_axis.next(), near, elems, ray, here);
    let ghost h2 = after_near;
    proof {
        assert forall|i: int| far.start() <= i < far.end implies !names(h2, i) by {
            if names(h2, i) {
                assert(names(h1, i) || near.start() <= i < near.end);
                if names(h1, i) {
                    assert(names(best, i) || nn.start <= i < nn.end);
                }
            }
        }
    }
    let res = if far_lost {
        proof {
            assert forall|i: int| far.start() <= i < far.end implies seen_by(h2, casts, i) by {
                assert(r[i].valid());
                lemma_away_is_miss(*ray, r[i], this_axis);
                assert(casts[i] is None);
            }
        }
        after_near
    } else if found_before_divider(&after_near, origin, heading, div) {
        proof {
            // Whatever stands on the far side is met no earlier than the
            // divider is reached, and that is later than what was found.
            assert forall|i: int| far.start() <= i < far.end implies seen_by(h2, casts, i) by {
                if casts[i] is Some {
                    assert(r[i].valid() && r[i].in_cast_reach());
                    ray.lemma_cast_not_before_line(r[i], this_axis, div as int);
                }
            }
        }
        after_near
    } else {
        raycast_recurse(handler, this_axis.next(), far, elems, ray, after_near)
    };
    proof {
        assert forall|i: int| 0 <= i < casts.len() && seen_by(best, casts, i) implies #[trigger] seen_by(
            res,
            casts,
            i,
        ) by {
            assert(seen_by(h1, casts, i));
            assert(seen_by(h2, casts, i));
        }
        assert forall|i: int| #[trigger] names(res, i) implies names(best, i) || m.start() <= i
            < m.end by {
            if !(far.start() <= i < far.end) {
                assert(names(h2, i));
                if !(near.start() <= i < near.end) {
                    assert(names(h1, i));
                }
            }
        }
        assert forall|i: int| m.start() <= i < m.end implies seen_by(res, casts, i) by {
            if i < nn.end {
                assert(seen_by(h1, casts, i));
                assert(seen_by(h2, casts, i));
            } else if near.start() <= i < near.end {
                assert(seen_by(h2, casts, i));
            }
        }
    }
    res
}

/// A ray that leads away from a rectangle along an axis does not meet it.
pub proof fn lemma_away_is_miss(ray: Ray, rect: Rect, axis: Axis)
    requires
        ray.leads_away(rect, axis),
    ensures
        ray.cast(rect) is None,
{
}

/// `best` is the answer to a cast at the elements that the ray meets as
/// `casts` holds, position by position: nothing if it meets none, else the
/// least value at which it meets one, with each position that it meets
/// at that value named once and no other.
pub open spec fn is_ray_answer(best: Option<Closest>, casts: Seq<Option<i64>>) -> bool {
    match best {
        None => forall|i: int| 0 <= i < casts.len() ==> (#[trigger] casts[i]) is None,
        Some(c) => {
            &&& c.found@.len() > 0
            &&& c.found@.no_duplicates()
            &&& forall|i: int| #[trigger]
                lists(c.found@, i) ==> 0 <= i < casts.len() && casts[i] == Some(c.tval)
            &&& forall|i: int|
                0 <= i < casts.len() && (#[trigger] casts[i]) == Some(c.tval) ==> lists(c.found@, i)
            &&& forall|i: int|
                0 <= i < casts.len() && (#[trigger] casts[i]) is Some ==> c.tval <= casts[i]->0
        },
    }
}

/// What has taken every element into account is the answer.
pub proof fn lemma_all_seen(best: Option<Closest>, casts: Seq<Option<i64>>)
    requires
        closest_ok(best, casts),
        forall|i: int| 0 <= i < casts.len() ==> seen_by(best, casts, i),
    ensures
        is_ray_answer(best, casts),
{
    match best {
        None => {
            assert forall|i: int| 0 <= i < casts.len() implies (#[trigger] casts[i]) is None by {
                assert(seen_by(best, casts, i));
            }
        },
        Some(c) => {
            assert forall|i: int| #[trigger] lists(c.found@, i) implies 0 <= i < casts.len()
                && casts[i] == Some(c.tval) by {
                let j = choose|j: int| 0 <= j < c.found@.len() && (#[trigger] c.found@[j]) == i;
            }
            assert forall|i: int|
                0 <= i < casts.len() && (#[trigger] casts[i]) == Some(c.tval) implies lists(
                c.found@,
                i,
            ) by {
                assert(seen_by(best, casts, i));
            }
            assert forall|i: int| 0 <= i < casts.len() && (#[trigger] casts[i]) is Some implies c.tval
                <= casts[i]->0 by {
                assert(seen_by(best, casts, i));
            }
        },
    }
}

/// Any two answers to one cast agree: both meet nothing, or both meet at
/// the same value the same elements. So the tree's answer is brute
/// force's answer.
pub proof fn lemma_ray_answer_unique(a: Option<Closest>, b: Option<Closest>, casts: Seq<Option<i64>>)
    requires
        is_ray_answer(a, casts),
        is_ray_answer(b, casts),
    ensures
        a is None <==> b is None,
        a is Some ==> a->0.tval == b->0.tval && a->0.found@.len() == b->0.found@.len() && forall|
            i: int,
        | lists(a->0.found@, i) <==> lists(b->0.found@, i),
{
    if let Some(ca) = a {
        let i = ca.found@[0] as int;
        assert(lists(ca.found@, i));
        assert(casts[i] == Some(ca.tval));
        if let Some(cb) = b {
            let j = cb.found@[0] as int;
            assert(lists(cb.found@, j));
            assert(casts[j] == Some(cb.tval));
            assert(ca.tval == cb.tval);
            assert forall|x: int| lists(ca.found@, x) <==> lists(cb.found@, x) by {
                if lists(ca.found@, x) {
                    assert(casts[x] == Some(cb.tval));
                }
                if lists(cb.found@, x) {
                    assert(casts[x] == Some(ca.tval));
                }
            }
            lemma_same_lists(ca.found@, cb.found@);
        } else {
            assert(casts[i] is None);
        }
    } else if let Some(cb) = b {
        let j = cb.found@[0] as int;
        assert(lists(cb.found@, j));
        assert(casts[j] == Some(cb.tval));
        assert(casts[j] is None);
    }
}

/// Two lists without repetition that name the same positions are equally
/// long.
pub proof fn lemma_same_lists(a: Seq<usize>, b: Seq<usize>)
    requires
        a.no_duplicates(),
        b.no_duplicates(),
        forall|x: int| lists(a, x) <==> lists(b, x),
    ensures
        a.len() == b.len(),
{
    a.unique_seq_to_set();
    b.unique_seq_to_set();
    assert(a.to_set() =~= b.to_set()) by {
        assert forall|x: usize| a.to_set().contains(x) <==> b.to_set().contains(x) by {
            if a.contains(x) {
                let j = choose|j: int| 0 <= j < a.len() && a[j] == x;
                assert(lists(a, x as int));
                let t = choose|t: int| 0 <= t < b.len() && (#[trigger] b[t]) == x as int;
                assert(b[t] == x);
            }
            if b.contains(x) {
                let j = choose|j: int| 0 <= j < b.len() && b[j] == x;
                assert(lists(b, x as int));
                let t = choose|t: int| 0 <= t < a.len() && (#[trigger] a[t]) == x as int;
                assert(a[t] == x);
            }
        }
    }
}

impl<'a, T: Aabb> Tree<'a, T> {
    /// Where the elements stand that the ray meets first, as `handler`
    /// casts it, and where along the ray it meets them; `None` if it meets
    /// nothing.
    pub fn raycast_by<H: RayCast<T = T>>(&self, handler: &H, ray: &Ray) -> (res: Option<Closest>)
        requires
            self.wf(),
            all_castable(self.rects()),
            ray.in_reach(),
        ensures
            is_ray_answer(res, casts_of(*handler, *ray, self.elements())),
    {
        let m = self.vistr();
        let res = raycast_recurse(handler, self.axis, m, &*self.bots, ray, None);
        proof {
            lemma_all_seen(res, casts_of(*handler, *ray, self.elements()));
        }
        res
    }

    /// Where the elements stand whose rectangles the ray meets first, and
    /// where along the ray it meets them; `None` if it meets nothing.
    pub fn raycast_positions(&self, ray: &Ray) -> (res: Option<Closest>)
        requires
            self.wf(),
            all_castable(self.rects()),
            ray.in_reach(),
        ensures
            is_ray_answer(res, rect_casts(*ray, self.rects())),
    {
        let handler = RectCast::<T>::new();
        proof {
            assert(casts_of(handler, *ray, self.elements()) =~= rect_casts(*ray, self.rects()));
        }
        self.raycast_by(&handler, ray)
    }

    /// The elements whose rectangles the ray meets first, all of them if
    /// it meets several at the same value, with that value.
    pub fn raycast(&self, ray: &Ray) -> (res: CastResult<(Vec<&T>, i64)>)
        requires
            self.wf(),
            all_castable(self.rects()),
            ray.in_reach(),
        ensures
            exists|best: Option<Closest>|
                {
                    &&& is_ray_answer(best, rect_casts(*ray, self.rects()))
                    &&& best is None <==> res == CastResult::<(Vec<&T>, i64)>::NoHit
                    &&& best matches Some(c) ==> res matches CastResult::Hit(hit) && hit.1 == c.tval
                        && hit.0@.len() == c.found@.len() && forall|j: int|
                        0 <= j < c.found@.len() ==> *(#[trigger] hit.0@[j]) == self.elements()[c.found@[j] as int]
                },
    {
        match self.raycast_positions(ray) {
            None => CastResult::NoHit,
            Some(c) => {
                let mut res: Vec<&T> = Vec::new();
                let mut j: usize = 0;
                proof {
                    assert forall|t: int| 0 <= t < c.found@.len() implies (#[trigger] c.found@[t])
                        < self.bots@.len() by {
                        assert(lists(c.found@, c.found@[t] as int));
                    }
                }
                while j < c.found.len()
                    invariant
                        j <= c.found@.len(),
                        res@.len() == j,
                        self.elements() == self.bots@,
                        forall|t: int|
                            0 <= t < c.found@.len() ==> (#[trigger] c.found@[t]) < self.bots@.len(),
                        forall|t: int|
                            0 <= t < j ==> *(#[trigger] res@[t]) == self.bots@[c.found@[t] as int],
                    decreases c.found@.len() - j,
                {
                    res.push(&self.bots[c.found[j]]);
                    j += 1;
                }
                let tval = c.tval;
                proof {
                    assert(is_ray_answer(Some(c), rect_casts(*ray, self.rects())));
                }
                CastResult::Hit((res, tval))
            },
        }
    }

    /// Shows the handler the elements whose rectangles the ray meets
    /// first and returns where they stand and where along the ray they are
    /// met.
    pub fn raycast_mut<F: ElemHandler<T = T>>(&mut self, ray: &Ray, func: &mut F) -> (res: Option<
        Closest,
    >)
        requires
            old(self).wf(),
            all_castable(old(self).rects()),
            ray.in_reach(),
            old(func).inv(),
        ensures
            final(self).wf(),
            final(self).rects() == old(self).rects(),
            final(self).keys() == old(self).keys(),
            final(self).nodes() == old(self).nodes(),
            final(self).axis() == old(self).axis(),
            final(self).levels() == old(self).levels(),
            final(self).bucket() == old(self).bucket(),
            final(final(self).target())@ == final(old(self).target())@,
            final(func).inv(),
            is_ray_answer(res, rect_casts(*ray, old(self).rects())),
            final(func).seen() == old(func).seen() + (match res {
                None => Seq::<Rect>::empty(),
                Some(c) => crate::query::rect::rects_at(old(self).rects(), c.found@),
            }),
    {
        let res = self.raycast_positions(ray);
        match &res {
            None => {
                proof {
                    assert(old(func).seen() + Seq::<Rect>::empty() =~= old(func).seen());
                }
            },
            Some(c) => {
                proof {
                    assert forall|t: int| 0 <= t < c.found@.len() implies (#[trigger] c.found@[t])
                        < self.bots@.len() by {
                        assert(lists(c.found@, c.found@[t] as int));
                    }
                }
                show_all(&mut *self.bots, &c.found, func);
            },
        }
        res
    }
}

} // verus!
