//! Brute force for every query: the answers that the tree's answers are
//! measured against.

use vstd::prelude::*;
use crate::geom::{Ray, Rect, Vec2};
use crate::node::Aabb;
use crate::pmut::PMut;
use crate::query::colfind::CollisionHandler;
use crate::query::knearest::{consider_range, Candidate, Knearest, RectDistance};
use crate::query::raycast::{cast_range, Closest, RayCast, RectCast};
use crate::query::rect::{scan_range, show_all, ElemHandler, RectMode};

verus! {

/// The intersecting pairs `p.0 < p.1` below `n` that come, in the order of
/// a double loop, before the pair `(i, j)`.
pub open spec fn hits_before(r: Seq<Rect>, n: int, i: int, j: int) -> Set<(int, int)> {
    Set::new(
        |p: (int, int)|
            0 <= p.0 < p.1 < n && (p.0 < i || (p.0 == i && p.1 < j)) && r[p.0].meets(r[p.1]),
    )
}

/// Shows the handler every pair of elements of `bots` whose rectangles
/// intersect, each pair once, by comparing every element with every later
/// one.
pub fn find_colliding_pairs_mut<F: CollisionHandler>(bots: PMut<[F::T]>, func: &mut F) -> (pairs:
    Ghost<Seq<(int, int)>>)
    requires
        old(func).inv(),
    ensures
        crate::model::rects_of(final(bots.target())@) == crate::model::rects_of(bots.target()@),
        crate::model::keys_of(final(bots.target())@) == crate::model::keys_of(bots.target()@),
        final(func).inv(),
        final(func).seen() == old(func).seen() + crate::model::at_pairs(
            crate::model::rects_of(bots.target()@),
            pairs@,
        ),
        final(func).seen_keys() == old(func).seen_keys() + crate::model::at_pairs(
            crate::model::keys_of(bots.target()@),
            pairs@,
        ),
        crate::model::exact(
            pairs@,
            crate::model::within(
                crate::model::rects_of(bots.target()@),
                0,
                bots.target()@.len() as int,
            ),
        ),
{
    let ghost r = crate::model::rects_of(bots.target()@);
    let ghost ks = crate::model::keys_of(bots.target()@);
    let ghost mut pairs: Seq<(int, int)> = Seq::empty();
    let mut b = bots;
    let n = b.len();
    let mut i: usize = 0;
    proof {
        assert(old(func).seen() + crate::model::at_pairs(r, pairs) =~= old(func).seen());
        assert(old(func).seen_keys() + crate::model::at_pairs(ks, pairs) =~= old(func).seen_keys());
        assert(hits_before(r, n as int, 0, 1) =~= Set::<(int, int)>::empty());
    }
    while i < n
        invariant
            i <= n,
            n == r.len(),
            n == b.target()@.len(),
            crate::model::rects_of(b.target()@) == r,
            crate::model::keys_of(b.target()@) == ks,
            final(b.target())@ == final(bots.target())@,
            func.inv(),
            func.seen() == old(func).seen() + crate::model::at_pairs(r, pairs),
            func.seen_keys() == old(func).seen_keys() + crate::model::at_pairs(ks, pairs),
            crate::model::exact(pairs, hits_before(r, n as int, i as int, i + 1)),
        decreases n - i,
    {
        let mut j: usize = i + 1;
        while j < n
            invariant
                i < n,
                i < j <= n,
                n == r.len(),
                n == b.target()@.len(),
                crate::model::rects_of(b.target()@) == r,
                crate::model::keys_of(b.target()@) == ks,
                final(b.target())@ == final(bots.target())@,
                func.inv(),
                func.seen() == old(func).seen() + crate::model::at_pairs(r, pairs),
                func.seen_keys() == old(func).seen_keys() + crate::model::at_pairs(ks, pairs),
                crate::model::exact(pairs, hits_before(r, n as int, i as int, j as int)),
            decreases n - j,
        {
            let ghost before = hits_before(r, n as int, i as int, j as int);
            let ghost x = (i as int, j as int);
            proof {
                assert(r[i as int] == b.target()@[i as int].rect());
                assert(ks[i as int] == b.target()@[i as int].key());
                assert(r[j as int] == b.target()@[j as int].rect());
                assert(ks[j as int] == b.target()@[j as int].key());
            }
            let meet = b.as_ref()[i].get().intersects_rect(b.as_ref()[j].get());
            if meet {
                let (a1, a2) = b.borrow_mut().pair_mut(i, j);
                func.collide(a1, a2);
                proof {
                    assert(crate::model::rects_of(b.target()@) =~= r);
                    assert(crate::model::keys_of(b.target()@) =~= ks);
                    crate::model::lemma_exact_push(pairs, before, x);
                    crate::model::lemma_at_pairs_push(r, pairs, x);
                    crate::model::lemma_at_pairs_push(ks, pairs, x);
                    assert(before.insert(x) =~= hits_before(r, n as int, i as int, j + 1));
                    assert(old(func).seen() + crate::model::at_pairs(r, pairs.push(x)) =~= (
                    old(func).seen() + crate::model::at_pairs(r, pairs)).push(
                        (r[i as int], r[j as int]),
                    ));
                    assert(old(func).seen_keys() + crate::model::at_pairs(ks, pairs.push(x)) =~= (
                    old(func).seen_keys() + crate::model::at_pairs(ks, pairs)).push(
                        (ks[i as int], ks[j as int]),
                    ));
                    pairs = pairs.push(x);
                }
            } else {
                proof {
                    assert(before =~= hits_before(r, n as int, i as int, j + 1));
                }
            }
            j += 1;
        }
        proof {
            assert(hits_before(r, n as int, i as int, n as int) =~= hits_before(
                r,
                n as int,
                i + 1,
                i + 2,
            ));
        }
        i += 1;
    }
    proof {
        assert(hits_before(r, n as int, n as int, n + 1) =~= crate::model::within(r, 0, n as int));
    }
    let _ = b.into_ref();
    Ghost(pairs)
}

/// The positions, in order, of the elements whose rectangle answers the
/// query, by looking at every element.
pub fn find_in_window<T: Aabb>(bots: &[T], window: &Rect, mode: RectMode) -> (found: Vec<usize>)
    ensures
        crate::query::rect::found_exactly(
            found@,
            crate::model::rects_of(bots@),
            0,
            bots@.len() as int,
            *window,
            mode,
        ),
{
    let mut out: Vec<usize> = Vec::new();
    let found = scan_range(bots, 0, bots.len(), window, mode, &mut out);
    proof {
        assert(out@ =~= found@);
    }
    out
}

/// Shows the handler the elements whose rectangle answers the query, each
/// once and in the order in which they stand, by looking at every element.
pub fn for_all_in_window_mut<F: ElemHandler>(
    bots: &mut [F::T],
    window: &Rect,
    mode: RectMode,
    func: &mut F,
) -> (found: Vec<usize>)
    requires
        old(func).inv(),
    ensures
        crate::model::rects_of(final(bots)@) == crate::model::rects_of(old(bots)@),
        crate::model::keys_of(final(bots)@) == crate::model::keys_of(old(bots)@),
        crate::query::rect::found_exactly(
            found@,
            crate::model::rects_of(old(bots)@),
            0,
            old(bots)@.len() as int,
            *window,
            mode,
        ),
        final(func).inv(),
        final(func).seen() == old(func).seen() + crate::query::rect::rects_at(
            crate::model::rects_of(old(bots)@),
            found@,
        ),
{
    let found = find_in_window(bots, window, mode);
    proof {
        assert forall|k: int| 0 <= k < found@.len() implies (#[trigger] found@[k]) < bots@.len() by {
            assert(found@.contains(found@[k]));
        }
    }
    show_all(bots, &found, func);
    found
}

/// Where the `num` elements of `bots` nearest to `point` stand, nearest
/// first, each with its distance as `handler` measures it, found by taking
/// every element into account in the order in which they stand.
pub fn k_nearest_by<H: Knearest>(handler: &H, bots: &[H::T], point: Vec2, num: usize) -> (res: Vec<
    Candidate,
>)
    requires
        crate::model::all_valid(crate::model::rects_of(bots@), 0, bots@.len() as int),
        crate::query::knearest::all_in_reach(crate::model::rects_of(bots@)),
        point.in_reach(),
    ensures
        crate::query::knearest::is_k_nearest(
            res@,
            crate::query::knearest::dists_of(*handler, point, bots@),
            num as nat,
        ),
{
    let mut heap: Vec<Candidate> = Vec::new();
    proof {
        assert forall|i: int| 0 <= i < bots@.len() implies !crate::query::knearest::holds_pos(
            heap@,
            i,
        ) by {}
    }
    consider_range(handler, bots, 0, bots.len(), point, num, &mut heap);
    proof {
        crate::query::knearest::lemma_all_covered(
            heap@,
            crate::query::knearest::dists_of(*handler, point, bots@),
            num as nat,
        );
    }
    heap
}

/// As [`k_nearest_by`], with the squared distance of each element's
/// rectangle.
pub fn k_nearest<T: Aabb>(bots: &[T], point: Vec2, num: usize) -> (res: Vec<Candidate>)
    requires
        crate::model::all_valid(crate::model::rects_of(bots@), 0, bots@.len() as int),
        crate::query::knearest::all_in_reach(crate::model::rects_of(bots@)),
        point.in_reach(),
    ensures
        crate::query::knearest::is_k_nearest(
            res@,
            crate::query::knearest::rect_dists(point, crate::model::rects_of(bots@)),
            num as nat,
        ),
{
    let handler = RectDistance::<T>::new();
    proof {
        assert(crate::query::knearest::dists_of(handler, point, bots@)
            =~= crate::query::knearest::rect_dists(point, crate::model::rects_of(bots@)));
    }
    k_nearest_by(&handler, bots, point, num)
}

/// Casts the ray at every element of `bots`, as `handler` casts it, in
/// the order in which they stand.
pub fn raycast_by<H: RayCast>(handler: &H, bots: &[H::T], ray: &Ray) -> (res: Option<Closest>)
    requires
        crate::query::raycast::all_castable(crate::model::rects_of(bots@)),
        ray.in_reach(),
    ensures
        crate::query::raycast::is_ray_answer(
            res,
            crate::query::raycast::casts_of(*handler, *ray, bots@),
        ),
{
    let res = cast_range(handler, bots, 0, bots.len(), ray, None);
    proof {
        crate::query::raycast::lemma_all_seen(
            res,
            crate::query::raycast::casts_of(*handler, *ray, bots@),
        );
    }
    res
}

/// Casts the ray at the rectangle of every element of `bots`, in the
/// order in which they stand.
pub fn raycast<T: Aabb>(bots: &[T], ray: &Ray) -> (res: Option<Closest>)
    requires
        crate::query::raycast::all_castable(crate::model::rects_of(bots@)),
        ray.in_reach(),
    ensures
        crate::query::raycast::is_ray_answer(
            res,
            crate::query::raycast::rect_casts(*ray, crate::model::rects_of(bots@)),
        ),
{
    let handler = RectCast::<T>::new();
    proof {
        assert(crate::query::raycast::casts_of(handler, *ray, bots@)
            =~= crate::query::raycast::rect_casts(*ray, crate::model::rects_of(bots@)));
    }
    raycast_by(&handler, bots, ray)
}

} // verus!
