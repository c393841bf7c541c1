//! Sweep and prune along one axis.

use vstd::prelude::*;
use crate::geom::{Axis, Rect};
use crate::node::Aabb;
use crate::pmut::PMut;
use crate::query::colfind::{admits, collide_if_admitted, collide_if_meet, CollisionHandler};
use crate::util::{
    ends_from, first_push, first_retain, lists_as_slice, second_push, second_retain, PreVec,
};

verus! {

/// `i` is among the first `upto` items of the list.
pub open spec fn listed(items: Seq<usize>, upto: int, i: int) -> bool {
    exists|t: int| 0 <= t < upto && (#[trigger] items[t]) == i
}

/// The ordered pairs of position `cur` and one of the first `upto` listed
/// positions whose rectangle ends at or after `from` along `axis` and
/// which `also` lets through.
pub open spec fn active_hits(
    r: Seq<Rect>,
    axis: Axis,
    also: Option<Axis>,
    cur: int,
    from: int,
    items: Seq<usize>,
    upto: int,
) -> Set<(int, int)> {
    Set::new(
        |p: (int, int)|
            p.0 == cur && listed(items, upto, p.1) && r[p.1].range(axis).end >= from && admits(
                also,
                r[p.0],
                r[p.1],
            ),
    )
}

/// Shows the element at `cur` to the handler together with each listed
/// element that is still active at `from` and that `also` lets through,
/// the element at `cur` first.
fn sweep_active<F: CollisionHandler>(
    axis: Axis,
    also: Option<Axis>,
    bots: PMut<[F::T]>,
    cur: usize,
    from: i64,
    items: &[usize],
    func: &mut F,
) -> (pairs: Ghost<Seq<(int, int)>>)
    requires
        old(func).inv(),
        cur < bots.target()@.len(),
        forall|t: int|
            0 <= t < items@.len() ==> (#[trigger] items@[t]) < bots.target()@.len() && items@[t]
                != cur,
        items@.no_duplicates(),
    ensures
        crate::model::rects_of(final(bots.target())@) == crate::model::rects_of(bots.target()@),
        crate::model::keys_of(final(bots.target())@) == crate::model::keys_of(bots.target()@),
        final(func).inv(),
        final(func).seen() == old(func).seen() + crate::model::at_pairs(
            crate::model::rects_of(bots.target()@),
            pairs@,
        ),
        final(func).seen_keys() == old(func).seen_keys() + crate::model::at_pairs(
            crate::model::keys_of(bots.target()@),
            pairs@,
        ),
        crate::model::exact_seq(
            pairs@,
            active_hits(
                crate::model::rects_of(bots.target()@),
                axis,
                also,
                cur as int,
                from as int,
                items@,
                items@.len() as int,
            ),
        ),
{
    let ghost r = crate::model::rects_of(bots.target()@);
    let ghost ks = crate::model::keys_of(bots.target()@);
    let ghost mut pairs: Seq<(int, int)> = Seq::empty();
    let mut b = bots;
    let n = items.len();
    let mut k: usize = 0;
    proof {
        assert(old(func).seen() + crate::model::at_pairs(r, pairs) =~= old(func).seen());
        assert(old(func).seen_keys() + crate::model::at_pairs(ks, pairs) =~= old(func).seen_keys());
    }
    while k < n
        invariant
            k <= n,
            n == items@.len(),
            cur < r.len(),
            r.len() == b.target()@.len(),
            forall|t: int|
                0 <= t < items@.len() ==> (#[trigger] items@[t]) < r.len() && items@[t] != cur,
            items@.no_duplicates(),
            crate::model::rects_of(b.target()@) == r,
            crate::model::keys_of(b.target()@) == ks,
            final(b.target())@ == final(bots.target())@,
            func.inv(),
            func.seen() == old(func).seen() + crate::model::at_pairs(r, pairs),
            func.seen_keys() == old(func).seen_keys() + crate::model::at_pairs(ks, pairs),
            crate::model::exact_seq(
                pairs,
                active_hits(r, axis, also, cur as int, from as int, items@, k as int),
            ),
        decreases n - k,
    {
        let item = items[k];
        let ghost before = active_hits(r, axis, also, cur as int, from as int, items@, k as int);
        let ghost after = active_hits(r, axis, also, cur as int, from as int, items@, k + 1);
        let ghost x = (cur as int, item as int);
        proof {
            assert(r[item as int] == b.target()@[item as int].rect());
            assert(ks[item as int] == b.target()@[item as int].key());
            assert(r[cur as int] == b.target()@[cur as int].rect());
            assert(ks[cur as int] == b.target()@[cur as int].key());
            assert forall|p: (int, int)| #[trigger] before.contains(p) implies p != x by {
                if p == x {
                    let t = choose|t: int| 0 <= t < k && (#[trigger] items@[t]) == p.1;
                    assert(items@[t] == items@[k as int]);
                }
            }
            assert(listed(items@, k + 1, item as int)) by {
                assert(items@[k as int] == item);
            }
            assert forall|p: (int, int)| listed(items@, k + 1, p.1) implies listed(
                items@,
                k as int,
                p.1,
            ) || p.1 == item by {
                let t = choose|t: int| 0 <= t < k + 1 && (#[trigger] items@[t]) == p.1;
                if t < k {
                    assert(listed(items@, k as int, p.1));
                }
            }
            assert forall|p: (int, int)| listed(items@, k as int, p.1) implies listed(
                items@,
                k + 1,
                p.1,
            ) by {
                let t = choose|t: int| 0 <= t < k && (#[trigger] items@[t]) == p.1;
                assert(0 <= t < k + 1 && items@[t] == p.1);
            }
        }
        let mut shown = false;
        if ends_from(b.as_ref(), axis, item, from) {
            let (a1, a2) = b.borrow_mut().pair_mut(cur, item);
            shown = collide_if_admitted(also, a1, a2, func);
            proof {
                assert(crate::model::rects_of(b.target()@) =~= r);
                assert(crate::model::keys_of(b.target()@) =~= ks);
            }
        }
        proof {
            if shown {
                crate::model::lemma_exact_seq_push(pairs, before, x);
                crate::model::lemma_at_pairs_push(r, pairs, x);
                crate::model::lemma_at_pairs_push(ks, pairs, x);
                assert(before.insert(x) =~= after);
                assert(old(func).seen() + crate::model::at_pairs(r, pairs.push(x)) =~= (
                old(func).seen() + crate::model::at_pairs(r, pairs)).push(
                    (r[cur as int], r[item as int]),
                ));
                assert(old(func).seen_keys() + crate::model::at_pairs(ks, pairs.push(x)) =~= (
                old(func).seen_keys() + crate::model::at_pairs(ks, pairs)).push(
                    (ks[cur as int], ks[item as int]),
                ));
                pairs = pairs.push(x);
            } else {
                assert(before =~= after);
            }
        }
        k += 1;
    }
    let _ = b.into_ref();
    Ghost(pairs)
}

/// Whether position `i` is on the active list when the sweep reaches
/// position `c`: it came before and has not ended before the start of the
/// position just handled.
pub open spec fn active_at(r: Seq<Rect>, axis: Axis, c: int, i: int) -> bool {
    0 <= i < c && (i + 1 == c || r[i].range(axis).end >= r[c - 1].range(axis).start)
}

/// The pairs `i < j` of positions in `lo..hi` whose intervals along `axis`
/// intersect and which `also` lets through.
pub open spec fn swept_within(r: Seq<Rect>, axis: Axis, also: Option<Axis>, lo: int, hi: int) -> Set<
    (int, int),
> {
    Set::new(
        |p: (int, int)|
            lo <= p.0 < p.1 < hi && r[p.0].range(axis).meets(r[p.1].range(axis)) && admits(
                also,
                r[p.0],
                r[p.1],
            ),
    )
}

/// The pairs of an earlier position and position `c` whose intervals
/// along `axis` intersect and which `also` lets through.
pub open spec fn hits_of(r: Seq<Rect>, axis: Axis, also: Option<Axis>, c: int) -> Set<(int, int)> {
    Set::new(
        |p: (int, int)|
            p.1 == c && 0 <= p.0 < c && r[p.0].range(axis).meets(r[p.1].range(axis)) && admits(
                also,
                r[p.0],
                r[p.1],
            ),
    )
}

/// Every pair names the later position first.
pub open spec fn later_first(pairs: Seq<(int, int)>) -> bool {
    forall|k: int| 0 <= k < pairs.len() ==> (#[trigger] pairs[k]).0 > pairs[k].1
}

/// Shows the handler every pair of elements whose intervals along `axis`
/// intersect and which `also` lets through, each pair once and the later
/// element first, by one sweep over the elements, which are sorted by
/// their start along `axis`: each element is met with the earlier ones
/// that have not ended before it starts. The scratch lists are handed
/// back empty.
fn sweep<F: CollisionHandler>(
    prevec1: &mut PreVec,
    axis: Axis,
    also: Option<Axis>,
    collision_botids: PMut<[F::T]>,
    func: &mut F,
) -> (pairs: Ghost<Seq<(int, int)>>)
    requires
        old(func).inv(),
        crate::model::sorted_by_start(
            crate::model::rects_of(collision_botids.target()@),
            axis,
            0,
            collision_botids.target()@.len() as int,
        ),
        crate::model::all_valid(
            crate::model::rects_of(collision_botids.target()@),
            0,
            collision_botids.target()@.len() as int,
        ),
    ensures
        crate::model::rects_of(final(collision_botids.target())@) == crate::model::rects_of(
            collision_botids.target()@,
        ),
        crate::model::keys_of(final(collision_botids.target())@) == crate::model::keys_of(
            collision_botids.target()@,
        ),
        final(func).inv(),
        final(func).seen() == old(func).seen() + crate::model::at_pairs(
            crate::model::rects_of(collision_botids.target()@),
            pairs@,
        ),
        final(func).seen_keys() == old(func).seen_keys() + crate::model::at_pairs(
            crate::model::keys_of(collision_botids.target()@),
            pairs@,
        ),
        crate::model::exact(
            pairs@,
            swept_within(
                crate::model::rects_of(collision_botids.target()@),
                axis,
                also,
                0,
                collision_botids.target()@.len() as int,
            ),
        ),
        later_first(pairs@),
        crate::util::first_items(final(prevec1).lists()) == Seq::<usize>::empty(),
        crate::util::second_items(final(prevec1).lists()) == Seq::<usize>::empty(),
{
    let ghost r = crate::model::rects_of(collision_botids.target()@);
    let ghost ks = crate::model::keys_of(collision_botids.target()@);
    let ghost mut pairs: Seq<(int, int)> = Seq::empty();
    let mut b = collision_botids;
    let n = b.len();
    let active = prevec1.get_empty_vec_mut();
    let mut c: usize = 0;
    proof {
        broadcast use vstd::multiset::group_multiset_axioms;
        broadcast use vstd::seq_lib::group_to_multiset_ensures;

        assert(old(func).seen() + crate::model::at_pairs(r, pairs) =~= old(func).seen());
        assert(old(func).seen_keys() + crate::model::at_pairs(ks, pairs) =~= old(func).seen_keys());
        assert(crate::util::first_items(*active).to_multiset() =~= vstd::multiset::Multiset::<usize>::empty());
    }
    while c < n
        invariant
            c <= n,
            n == r.len(),
            n == b.target()@.len(),
            crate::model::rects_of(b.target()@) == r,
            crate::model::keys_of(b.target()@) == ks,
            final(b.target())@ == final(collision_botids.target())@,
            crate::model::sorted_by_start(r, axis, 0, n as int),
            crate::model::all_valid(r, 0, n as int),
            forall|i: usize|
                (#[trigger] crate::util::first_items(*active).to_multiset().count(i)) == (if active_at(
                    r,
                    axis,
                    c as int,
                    i as int,
                ) {
                    1nat
                } else {
                    0nat
                }),
            func.inv(),
            func.seen() == old(func).seen() + crate::model::at_pairs(r, pairs),
            func.seen_keys() == old(func).seen_keys() + crate::model::at_pairs(ks, pairs),
            crate::model::exact(pairs, swept_within(r, axis, also, 0, c as int)),
            later_first(pairs),
        decreases n - c,
    {
        let from = b.as_ref()[c].get().get_range(axis).start;
        let ghost m0 = crate::util::first_items(*active).to_multiset();
        let ghost items0 = crate::util::first_items(*active);
        let (items, _) = lists_as_slice(active);
        proof {
            broadcast use vstd::multiset::group_multiset_axioms;
            broadcast use vstd::seq_lib::group_to_multiset_ensures;

            assert(r[c as int] == b.target()@[c as int].rect());
            assert(ks[c as int] == b.target()@[c as int].key());
            items@.lemma_multiset_has_no_duplicates_conv();
            assert forall|t: int| 0 <= t < items@.len() implies (#[trigger] items@[t]) < c by {
                assert(items@.contains(items@[t]));
                assert(m0.count(items@[t]) > 0);
            }
        }
        let step = sweep_active(axis, also, b.borrow_mut(), c, from, items, func);
        proof {
            broadcast use vstd::multiset::group_multiset_axioms;
            broadcast use vstd::seq_lib::group_to_multiset_ensures;

            assert(crate::model::rects_of(b.target()@) =~= r);
            assert(crate::model::keys_of(b.target()@) =~= ks);
            let ordered = active_hits(r, axis, also, c as int, from as int, items@, items@.len() as int);
            let want = hits_of(r, axis, also, c as int);
            assert forall|p: (int, int)| #[trigger] ordered.contains(p) implies want.contains(
                crate::model::norm(p),
            ) && p.0 > p.1 && !ordered.contains((p.1, p.0)) by {
                let t = choose|t: int| 0 <= t < items@.len() && (#[trigger] items@[t]) == p.1;
                assert(items@[t] < c);
                assert(r[p.1].valid() && r[c as int].valid());
            }
            assert forall|k: int| 0 <= k < step@.len() implies (#[trigger] step@[k]).0
                > step@[k].1 by {
                assert(ordered.contains(step@[k]));
            }
            assert forall|q: (int, int)| #[trigger] want.contains(q) implies ordered.contains(
                (q.1, q.0),
            ) by {
                assert(r[q.0].valid() && r[c as int].valid());
                assert(active_at(r, axis, c as int, q.0));
                assert(m0.count(q.0 as usize) == 1);
                assert(items@.contains(q.0 as usize));
                let t = choose|t: int| 0 <= t < items@.len() && items@[t] == q.0 as usize;
                assert(listed(items@, items@.len() as int, q.0));
            }
            crate::model::lemma_exact_from_seq(step@, ordered, want);
            crate::model::lemma_exact_concat(
                pairs,
                swept_within(r, axis, also, 0, c as int),
                step@,
                want,
            );
            crate::model::lemma_at_pairs_concat(r, pairs, step@);
            crate::model::lemma_at_pairs_concat(ks, pairs, step@);
            assert(swept_within(r, axis, also, 0, c as int).union(want)
                =~= swept_within(r, axis, also, 0, c + 1));
            pairs = pairs + step@;
        }
        first_retain(active, b.as_ref(), axis, from);
        first_push(active, c);
        proof {
            broadcast use vstd::multiset::group_multiset_axioms;
            broadcast use vstd::seq_lib::group_to_multiset_ensures;

            let m2 = crate::util::first_items(*active).to_multiset();
            assert forall|i: usize| (#[trigger] m2.count(i)) == (if active_at(
                r,
                axis,
                c + 1,
                i as int,
            ) {
                1nat
            } else {
                0nat
            }) by {
                if i < n {
                    assert(r[i as int] == b.target()@[i as int].rect());
                    assert(ks[i as int] == b.target()@[i as int].key());
                }
            }
        }
        c += 1;
    }
    prevec1.clear();
    let _ = b.into_ref();
    Ghost(pairs)
}

/// Shows the handler every pair of elements whose intervals along `axis`
/// intersect, each pair once and the later element first. The elements
/// are sorted by their start along `axis`. The scratch lists are handed
/// back empty.
pub fn find<F: CollisionHandler>(
    prevec1: &mut PreVec,
    axis: Axis,
    collision_botids: PMut<[F::T]>,
    func: &mut F,
) -> (pairs: Ghost<Seq<(int, int)>>)
    requires
        old(func).inv(),
        crate::model::sorted_by_start(
            crate::model::rects_of(collision_botids.target()@),
            axis,
            0,
            collision_botids.target()@.len() as int,
        ),
        crate::model::all_valid(
            crate::model::rects_of(collision_botids.target()@),
            0,
            collision_botids.target()@.len() as int,
        ),
    ensures
        crate::model::rects_of(final(collision_botids.target())@) == crate::model::rects_of(
            collision_botids.target()@,
        ),
        crate::model::keys_of(final(collision_botids.target())@) == crate::model::keys_of(
            collision_botids.target()@,
        ),
        final(func).inv(),
        final(func).seen() == old(func).seen() + crate::model::at_pairs(
            crate::model::rects_of(collision_botids.target()@),
            pairs@,
        ),
        final(func).seen_keys() == old(func).seen_keys() + crate::model::at_pairs(
            crate::model::keys_of(collision_botids.target()@),
            pairs@,
        ),
        crate::model::exact(
            pairs@,
            crate::model::within_axis(
                crate::model::rects_of(collision_botids.target()@),
                axis,
                0,
                collision_botids.target()@.len() as int,
            ),
        ),
        later_first(pairs@),
        crate::util::first_items(final(prevec1).lists()) == Seq::<usize>::empty(),
        crate::util::second_items(final(prevec1).lists()) == Seq::<usize>::empty(),
{
    proof {
        let r = crate::model::rects_of(collision_botids.target()@);
        let n = collision_botids.target()@.len() as int;
        assert(swept_within(r, axis, None, 0, n) =~= crate::model::within_axis(r, axis, 0, n));
    }
    sweep(prevec1, axis, None, collision_botids, func)
}

/// Shows the handler every pair of elements of `bots` whose rectangles
/// intersect, each pair once and the later element first. The elements
/// are sorted by their start along `axis`: the sweep along `axis` finds
/// the pairs that meet along it, and of those the ones that meet along
/// the other axis as well are shown. The scratch lists are handed back
/// empty.
pub fn find_2d<F: CollisionHandler>(
    prevec1: &mut PreVec,
    axis: Axis,
    bots: PMut<[F::T]>,
    clos2: &mut F,
) -> (pairs: Ghost<Seq<(int, int)>>)
    requires
        old(clos2).inv(),
        crate::model::sorted_by_start(
            crate::model::rects_of(bots.target()@),
            axis,
            0,
            bots.target()@.len() as int,
        ),
        crate::model::all_valid(
            crate::model::rects_of(bots.target()@),
            0,
            bots.target()@.len() as int,
        ),
    ensures
        crate::model::rects_of(final(bots.target())@) == crate::model::rects_of(bots.target()@),
        crate::model::keys_of(final(bots.target())@) == crate::model::keys_of(bots.target()@),
        final(clos2).inv(),
        final(clos2).seen() == old(clos2).seen() + crate::model::at_pairs(
            crate::model::rects_of(bots.target()@),
            pairs@,
        ),
        final(clos2).seen_keys() == old(clos2).seen_keys() + crate::model::at_pairs(
            crate::model::keys_of(bots.target()@),
            pairs@,
        ),
        crate::model::exact(
            pairs@,
            crate::model::within(
                crate::model::rects_of(bots.target()@),
                0,
                bots.target()@.len() as int,
            ),
        ),
        later_first(pairs@),
        crate::util::first_items(final(prevec1).lists()) == Seq::<usize>::empty(),
        crate::util::second_items(final(prevec1).lists()) == Seq::<usize>::empty(),
{
    //only check if the opposite axis intersects.
    //already know they intersect
    let also = Some(axis.next());
    proof {
        let r = crate::model::rects_of(bots.target()@);
        let n = bots.target()@.len() as int;
        assert(swept_within(r, axis, also, 0, n) =~= crate::model::within(r, 0, n));
    }
    sweep(prevec1, axis, also, bots, clos2)
}

/// The ordered pairs, first group first, of position `cur` in one group
/// and one of the first `upto` listed positions in the other whose
/// rectangle ends at or after `from` along `axis` and which `also` lets
/// through with that of `cur`. `cur_first` says that `cur` is in the first
/// group.
pub open spec fn cross_hits(
    rx: Seq<Rect>,
    ry: Seq<Rect>,
    axis: Axis,
    also: Option<Axis>,
    cur: int,
    cur_first: bool,
    from: int,
    items: Seq<usize>,
    upto: int,
) -> Set<(int, int)> {
    Set::new(
        |p: (int, int)|
            if cur_first {
                p.0 == cur && listed(items, upto, p.1) && ry[p.1].range(axis).end >= from
                    && admits(also, rx[cur], ry[p.1])
            } else {
                p.1 == cur && listed(items, upto, p.0) && rx[p.0].range(axis).end >= from
                    && admits(also, rx[p.0], ry[cur])
            },
    )
}

/// Shows the element at `cur` of one group to the handler together with
/// each listed element of the other group that is still active at `from`
/// and that `also` lets through with it. The element of the first group
/// is always the handler's first argument.
fn sweep_active_cross<F: CollisionHandler>(
    axis: Axis,
    also: Option<Axis>,
    xs: PMut<[F::T]>,
    ys: PMut<[F::T]>,
    cur: usize,
    cur_first: bool,
    from: i64,
    items: &[usize],
    func: &mut F,
) -> (pairs: Ghost<Seq<(int, int)>>)
    requires
        old(func).inv(),
        cur_first ==> cur < xs.target()@.len(),
        !cur_first ==> cur < ys.target()@.len(),
        forall|t: int|
            0 <= t < items@.len() ==> (#[trigger] items@[t]) < (if cur_first {
                ys.target()@.len()
            } else {
                xs.target()@.len()
            }),
        items@.no_duplicates(),
    ensures
        crate::model::rects_of(final(xs.target())@) == crate::model::rects_of(xs.target()@),
        crate::model::keys_of(final(xs.target())@) == crate::model::keys_of(xs.target()@),
        crate::model::rects_of(final(ys.target())@) == crate::model::rects_of(ys.target()@),
        crate::model::keys_of(final(ys.target())@) == crate::model::keys_of(ys.target()@),
        final(func).inv(),
        final(func).seen() == old(func).seen() + crate::model::at_pairs2(
            crate::model::rects_of(xs.target()@),
            crate::model::rects_of(ys.target()@),
            pairs@,
        ),
        final(func).seen_keys() == old(func).seen_keys() + crate::model::at_pairs2(
            crate::model::keys_of(xs.target()@),
            crate::model::keys_of(ys.target()@),
            pairs@,
        ),
        crate::model::exact_seq(
            pairs@,
            cross_hits(
                crate::model::rects_of(xs.target()@),
                crate::model::rects_of(ys.target()@),
                axis,
                also,
                cur as int,
                cur_first,
                from as int,
                items@,
                items@.len() as int,
            ),
        ),
{
    let ghost rx = crate::model::rects_of(xs.target()@);
    let ghost ksx = crate::model::keys_of(xs.target()@);
    let ghost ry = crate::model::rects_of(ys.target()@);
    let ghost ksy = crate::model::keys_of(ys.target()@);
    let ghost mut pairs: Seq<(int, int)> = Seq::empty();
    let mut bx = xs;
    let mut by = ys;
    let n = items.len();
    let mut k: usize = 0;
    proof {
        assert(old(func).seen() + crate::model::at_pairs2(rx, ry, pairs) =~= old(func).seen());
        assert(old(func).seen_keys() + crate::model::at_pairs2(ksx, ksy, pairs) =~= old(func).seen_keys());
    }
    while k < n
        invariant
            k <= n,
            n == items@.len(),
            cur_first ==> cur < rx.len(),
            !cur_first ==> cur < ry.len(),
            rx.len() == bx.target()@.len(),
            ry.len() == by.target()@.len(),
            forall|t: int|
                0 <= t < items@.len() ==> (#[trigger] items@[t]) < (if cur_first {
                    ry.len()
                } else {
                    rx.len()
                }),
            items@.no_duplicates(),
            crate::model::rects_of(bx.target()@) == rx,
            crate::model::keys_of(bx.target()@) == ksx,
            crate::model::rects_of(by.target()@) == ry,
            crate::model::keys_of(by.target()@) == ksy,
            final(bx.target())@ == final(xs.target())@,
            final(by.target())@ == final(ys.target())@,
            func.inv(),
            func.seen() == old(func).seen() + crate::model::at_pairs2(rx, ry, pairs),
            func.seen_keys() == old(func).seen_keys() + crate::model::at_pairs2(ksx, ksy, pairs),
            crate::model::exact_seq(
                pairs,
                cross_hits(rx, ry, axis, also, cur as int, cur_first, from as int, items@, k as int),
            ),
        decreases n - k,
    {
        let item = items[k];
        let ghost before = cross_hits(
            rx,
            ry,
            axis,
            also,
            cur as int,
            cur_first,
            from as int,
            items@,
            k as int,
        );
        let ghost after = cross_hits(rx, ry, axis, also, cur as int, cur_first, from as int, items@, k + 1);
        let ghost x = if cur_first {
            (cur as int, item as int)
        } else {
            (item as int, cur as int)
        };
        proof {
            if cur_first {
                assert(ry[item as int] == by.target()@[item as int].rect());
                assert(ksy[item as int] == by.target()@[item as int].key());
                assert(rx[cur as int] == bx.target()@[cur as int].rect());
                assert(ksx[cur as int] == bx.target()@[cur as int].key());
            } else {
                assert(rx[item as int] == bx.target()@[item as int].rect());
                assert(ksx[item as int] == bx.target()@[item as int].key());
                assert(ry[cur as int] == by.target()@[cur as int].rect());
                assert(ksy[cur as int] == by.target()@[cur as int].key());
            }
            assert forall|p: (int, int)| #[trigger] before.contains(p) implies p != x by {
                if p == x {
                    let t = choose|t: int| 0 <= t < k && (#[trigger] items@[t]) == item;
                    assert(items@[t] == items@[k as int]);
                }
            }
            assert(listed(items@, k + 1, item as int)) by {
                assert(items@[k as int] == item);
            }
            assert forall|i: int| listed(items@, k + 1, i) implies listed(items@, k as int, i) || i
                == item by {
                let t = choose|t: int| 0 <= t < k + 1 && (#[trigger] items@[t]) == i;
                if t < k {
                    assert(listed(items@, k as int, i));
                }
            }
            assert forall|i: int| listed(items@, k as int, i) implies listed(items@, k + 1, i) by {
                let t = choose|t: int| 0 <= t < k && (#[trigger] items@[t]) == i;
                assert(0 <= t < k + 1 && items@[t] == i);
            }
        }
        let mut shown = false;
        if cur_first {
            if ends_from(by.as_ref(), axis, item, from) {
                let a1 = bx.borrow_mut().get_index_mut(cur);
                let a2 = by.borrow_mut().get_index_mut(item);
                shown = collide_if_admitted(also, a1, a2, func);
            }
        } else {
            if ends_from(bx.as_ref(), axis, item, from) {
                let a1 = bx.borrow_mut().get_index_mut(item);
                let a2 = by.borrow_mut().get_index_mut(cur);
                shown = collide_if_admitted(also, a1, a2, func);
            }
        }
        proof {
            assert(crate::model::rects_of(bx.target()@) =~= rx);
            assert(crate::model::keys_of(bx.target()@) =~= ksx);
            assert(crate::model::rects_of(by.target()@) =~= ry);
            assert(crate::model::keys_of(by.target()@) =~= ksy);
            if shown {
                crate::model::lemma_exact_seq_push(pairs, before, x);
                crate::model::lemma_at_pairs2_push(rx, ry, pairs, x);
                crate::model::lemma_at_pairs2_push(ksx, ksy, pairs, x);
                assert(before.insert(x) =~= after);
                assert(old(func).seen() + crate::model::at_pairs2(rx, ry, pairs.push(x)) =~= (
                old(func).seen() + crate::model::at_pairs2(rx, ry, pairs)).push(
                    (rx[x.0], ry[x.1]),
                ));
                assert(old(func).seen_keys() + crate::model::at_pairs2(ksx, ksy, pairs.push(x)) =~= (
                old(func).seen_keys() + crate::model::at_pairs2(ksx, ksy, pairs)).push(
                    (ksx[x.0], ksy[x.1]),
                ));
                pairs = pairs.push(x);
            } else {
                assert(before =~= after);
            }
        }
        k += 1;
    }
    let _ = bx.into_ref();
    let _ = by.into_ref();
    Ghost(pairs)
}

/// Whether position `i` of the first group is on its active list when the
/// sweep has passed `ix` elements of the first group and `iy` of the
/// second.
pub open spec fn active_x(rx: Seq<Rect>, ry: Seq<Rect>, axis: Axis, ix: int, iy: int, i: int) -> bool {
    0 <= i < ix && (iy == 0 || rx[i].range(axis).end >= ry[iy - 1].range(axis).start)
}

/// Whether position `j` of the second group is on its active list when
/// the sweep has passed `ix` elements of the first group and `iy` of the
/// second.
pub open spec fn active_y(rx: Seq<Rect>, ry: Seq<Rect>, axis: Axis, ix: int, iy: int, j: int) -> bool {
    0 <= j < iy && (ix == 0 || ry[j].range(axis).end >= rx[ix - 1].range(axis).start)
}

/// The pairs among the first `ix` positions of one group and the first
/// `iy` of the other whose intervals along `axis` intersect and which
/// `also` lets through.
pub open spec fn swept_upto(
    rx: Seq<Rect>,
    ry: Seq<Rect>,
    axis: Axis,
    also: Option<Axis>,
    ix: int,
    iy: int,
) -> Set<(int, int)> {
    Set::new(
        |p: (int, int)|
            0 <= p.0 < ix && 0 <= p.1 < iy && rx[p.0].range(axis).meets(ry[p.1].range(axis))
                && admits(also, rx[p.0], ry[p.1]),
    )
}

/// Shows the handler every pair of an element of the first group and an
/// element of the second whose intervals along `axis` intersect and which
/// `also` lets through, each pair once and the element of the first group
/// first, by one sweep over both groups, each sorted by start along
/// `axis`: the elements are taken in the order of their starts, and each
/// is met with the elements of the other group that have not ended before
/// it starts. The scratch lists are handed back empty.
fn sweep_two<F: CollisionHandler>(
    prevec1: &mut PreVec,
    axis: Axis,
    also: Option<Axis>,
    cols: (PMut<[F::T]>, PMut<[F::T]>),
    func: &mut F,
) -> (pairs: Ghost<Seq<(int, int)>>)
    requires
        old(func).inv(),
        crate::model::sorted_by_start(
            crate::model::rects_of(cols.0.target()@),
            axis,
            0,
            cols.0.target()@.len() as int,
        ),
        crate::model::sorted_by_start(
            crate::model::rects_of(cols.1.target()@),
            axis,
            0,
            cols.1.target()@.len() as int,
        ),
        crate::model::all_valid(
            crate::model::rects_of(cols.0.target()@),
            0,
            cols.0.target()@.len() as int,
        ),
        crate::model::all_valid(
            crate::model::rects_of(cols.1.target()@),
            0,
            cols.1.target()@.len() as int,
        ),
    ensures
        crate::model::rects_of(final(cols.0.target())@) == crate::model::rects_of(
            cols.0.target()@,
        ),
        crate::model::keys_of(final(cols.0.target())@) == crate::model::keys_of(
            cols.0.target()@,
        ),
        crate::model::rects_of(final(cols.1.target())@) == crate::model::rects_of(
            cols.1.target()@,
        ),
        crate::model::keys_of(final(cols.1.target())@) == crate::model::keys_of(
            cols.1.target()@,
        ),
        final(func).inv(),
        final(func).seen() == old(func).seen() + crate::model::at_pairs2(
            crate::model::rects_of(cols.0.target()@),
            crate::model::rects_of(cols.1.target()@),
            pairs@,
        ),
        final(func).seen_keys() == old(func).seen_keys() + crate::model::at_pairs2(
            crate::model::keys_of(cols.0.target()@),
            crate::model::keys_of(cols.1.target()@),
            pairs@,
        ),
        crate::model::exact_seq(
            pairs@,
            swept_upto(
                crate::model::rects_of(cols.0.target()@),
                crate::model::rects_of(cols.1.target()@),
                axis,
                also,
                cols.0.target()@.len() as int,
                cols.1.target()@.len() as int,
            ),
        ),
        crate::util::first_items(final(prevec1).lists()) == Seq::<usize>::empty(),
        crate::util::second_items(final(prevec1).lists()) == Seq::<usize>::empty(),
{
    let ghost rx = crate::model::rects_of(cols.0.target()@);
    let ghost ksx = crate::model::keys_of(cols.0.target()@);
    let ghost ry = crate::model::rects_of(cols.1.target()@);
    let ghost ksy = crate::model::keys_of(cols.1.target()@);
    let ghost mut pairs: Seq<(int, int)> = Seq::empty();
    let (mut bx, mut by) = cols;
    let nx = bx.len();
    let ny = by.len();
    let active = prevec1.get_empty_vec_mut();
    let mut ix: usize = 0;
    let mut iy: usize = 0;
    proof {
        broadcast use vstd::multiset::group_multiset_axioms;
        broadcast use vstd::seq_lib::group_to_multiset_ensures;

        assert(old(func).seen() + crate::model::at_pairs2(rx, ry, pairs) =~= old(func).seen());
        assert(old(func).seen_keys() + crate::model::at_pairs2(ksx, ksy, pairs) =~= old(func).seen_keys());
        assert(crate::util::first_items(*active).to_multiset()
            =~= vstd::multiset::Multiset::<usize>::empty());
        assert(crate::util::second_items(*active).to_multiset()
            =~= vstd::multiset::Multiset::<usize>::empty());
    }
    while ix < nx || iy < ny
        invariant
            ix <= nx,
            iy <= ny,
            nx == rx.len(),
            ny == ry.len(),
            nx == bx.target()@.len(),
            ny == by.target()@.len(),
            crate::model::rects_of(bx.target()@) == rx,
            crate::model::keys_of(bx.target()@) == ksx,
            crate::model::rects_of(by.target()@) == ry,
            crate::model::keys_of(by.target()@) == ksy,
            final(bx.target())@ == final(cols.0.target())@,
            final(by.target())@ == final(cols.1.target())@,
            crate::model::sorted_by_start(rx, axis, 0, nx as int),
            crate::model::sorted_by_start(ry, axis, 0, ny as int),
            crate::model::all_valid(rx, 0, nx as int),
            crate::model::all_valid(ry, 0, ny as int),
            forall|i: usize|
                (#[trigger] crate::util::first_items(*active).to_multiset().count(i)) == (if active_x(
                    rx,
                    ry,
                    axis,
                    ix as int,
                    iy as int,
                    i as int,
                ) {
                    1nat
                } else {
                    0nat
                }),
            forall|j: usize|
                (#[trigger] crate::util::second_items(*active).to_multiset().count(j)) == (if active_y(
                    rx,
                    ry,
                    axis,
                    ix as int,
                    iy as int,
                    j as int,
                ) {
                    1nat
                } else {
                    0nat
                }),
            forall|i: int, j: int|
                0 <= i < ix && iy <= j < ny ==> (#[trigger] rx[i]).range(axis).start < (
                #[trigger] ry[j]).range(axis).start,
            forall|i: int, j: int|
                ix <= i < nx && 0 <= j < iy ==> (#[trigger] ry[j]).range(axis).start <= (
                #[trigger] rx[i]).range(axis).start,
            func.inv(),
            func.seen() == old(func).seen() + crate::model::at_pairs2(rx, ry, pairs),
            func.seen_keys() == old(func).seen_keys() + crate::model::at_pairs2(ksx, ksy, pairs),
            crate::model::exact_seq(pairs, swept_upto(rx, ry, axis, also, ix as int, iy as int)),
        decreases (nx - ix) + (ny - iy),
    {
        let take_x = if ix < nx {
            if iy < ny {
                bx.as_ref()[ix].get().get_range(axis).start < by.as_ref()[iy].get().get_range(
                    axis,
                ).start
            } else {
                true
            }
        } else {
            false
        };
        proof {
            if ix < nx {
                assert(rx[ix as int] == bx.target()@[ix as int].rect());
                assert(ksx[ix as int] == bx.target()@[ix as int].key());
            }
            if iy < ny {
                assert(ry[iy as int] == by.target()@[iy as int].rect());
                assert(ksy[iy as int] == by.target()@[iy as int].key());
            }
        }
        let ghost mx0 = crate::util::first_items(*active).to_multiset();
        let ghost my0 = crate::util::second_items(*active).to_multiset();
        let ghost done = swept_upto(rx, ry, axis, also, ix as int, iy as int);
        if take_x {
            let from = bx.as_ref()[ix].get().get_range(axis).start;
            let (_, items) = lists_as_slice(active);
            proof {
                broadcast use vstd::multiset::group_multiset_axioms;
                broadcast use vstd::seq_lib::group_to_multiset_ensures;

                items@.lemma_multiset_has_no_duplicates_conv();
                assert forall|t: int| 0 <= t < items@.len() implies (#[trigger] items@[t])
                    < iy by {
                    assert(items@.contains(items@[t]));
                    assert(my0.count(items@[t]) > 0);
                }
            }
            let step = sweep_active_cross(
                axis,
                also,
                bx.borrow_mut(),
                by.borrow_mut(),
                ix,
                true,
                from,
                items,
                func,
            );
            proof {
                broadcast use vstd::multiset::group_multiset_axioms;
                broadcast use vstd::seq_lib::group_to_multiset_ensures;

                assert(crate::model::rects_of(bx.target()@) =~= rx);
                assert(crate::model::keys_of(bx.target()@) =~= ksx);
                assert(crate::model::rects_of(by.target()@) =~= ry);
                assert(crate::model::keys_of(by.target()@) =~= ksy);
                let ordered = cross_hits(
                    rx,
                    ry,
                    axis,
                    also,
                    ix as int,
                    true,
                    from as int,
                    items@,
                    items@.len() as int,
                );
                let fresh = Set::new(
                    |p: (int, int)|
                        p.0 == ix && 0 <= p.1 < iy && rx[p.0].range(axis).meets(
                            ry[p.1].range(axis),
                        ) && admits(also, rx[p.0], ry[p.1]),
                );
                assert forall|p: (int, int)| #[trigger] ordered.contains(p) implies fresh.contains(
                    p,
                ) by {
                    let t = choose|t: int| 0 <= t < items@.len() && (#[trigger] items@[t]) == p.1;
                    assert(items@[t] < iy);
                    assert(ry[p.1].valid() && rx[ix as int].valid());
                }
                assert forall|q: (int, int)| #[trigger] fresh.contains(q) implies ordered.contains(
                    q,
                ) by {
                    assert(ry[q.1].valid() && rx[ix as int].valid());
                    if ix > 0 {
                        assert(rx[ix - 1].range(axis).start <= rx[ix as int].range(axis).start);
                    }
                    assert(active_y(rx, ry, axis, ix as int, iy as int, q.1));
                    assert(my0.count(q.1 as usize) == 1);
                    assert(items@.contains(q.1 as usize));
                    let t = choose|t: int| 0 <= t < items@.len() && items@[t] == q.1 as usize;
                    assert(listed(items@, items@.len() as int, q.1));
                }
                assert(ordered =~= fresh);
                crate::model::lemma_exact_seq_concat(pairs, done, step@, fresh);
                crate::model::lemma_at_pairs2_concat(rx, ry, pairs, step@);
                crate::model::lemma_at_pairs2_concat(ksx, ksy, pairs, step@);
                assert(done.union(fresh) =~= swept_upto(rx, ry, axis, also, ix + 1, iy as int));
                pairs = pairs + step@;
            }
            second_retain(active, by.as_ref(), axis, from);
            first_push(active, ix);
            proof {
                broadcast use vstd::multiset::group_multiset_axioms;
                broadcast use vstd::seq_lib::group_to_multiset_ensures;

                let mx2 = crate::util::first_items(*active).to_multiset();
                let my2 = crate::util::second_items(*active).to_multiset();
                assert forall|i: usize| (#[trigger] mx2.count(i)) == (if active_x(
                    rx,
                    ry,
                    axis,
                    ix + 1,
                    iy as int,
                    i as int,
                ) {
                    1nat
                } else {
                    0nat
                }) by {
                    if i == ix && iy > 0 {
                        assert(ry[iy - 1].range(axis).start <= rx[ix as int].range(axis).start);
                        assert(rx[ix as int].valid());
                    }
                }
                assert forall|j: usize| (#[trigger] my2.count(j)) == (if active_y(
                    rx,
                    ry,
                    axis,
                    ix + 1,
                    iy as int,
                    j as int,
                ) {
                    1nat
                } else {
                    0nat
                }) by {
                    if j < ny {
                        assert(ry[j as int] == by.target()@[j as int].rect());
                        assert(ksy[j as int] == by.target()@[j as int].key());
                    }
                    if ix > 0 {
                        assert(rx[ix - 1].range(axis).start <= rx[ix as int].range(axis).start);
                    }
                }
                assert forall|i: int, j: int| 0 <= i < ix + 1 && iy <= j < ny implies (
                #[trigger] rx[i]).range(axis).start < (#[trigger] ry[j]).range(axis).start by {
                    if i == ix {
                        assert(ry[iy as int].range(axis).start <= ry[j].range(axis).start);
                    }
                }
            }
            ix += 1;
        } else {
            let from = by.as_ref()[iy].get().get_range(axis).start;
            let (items, _) = lists_as_slice(active);
            proof {
                broadcast use vstd::multiset::group_multiset_axioms;
                broadcast use vstd::seq_lib::group_to_multiset_ensures;

                items@.lemma_multiset_has_no_duplicates_conv();
                assert forall|t: int| 0 <= t < items@.len() implies (#[trigger] items@[t])
                    < ix by {
                    assert(items@.contains(items@[t]));
                    assert(mx0.count(items@[t]) > 0);
                }
            }
            let step = sweep_active_cross(
                axis,
                also,
                bx.borrow_mut(),
                by.borrow_mut(),
                iy,
                false,
                from,
                items,
                func,
            );
            proof {
                broadcast use vstd::multiset::group_multiset_axioms;
                broadcast use vstd::seq_lib::group_to_multiset_ensures;

                assert(crate::model::rects_of(bx.target()@) =~= rx);
                assert(crate::model::keys_of(bx.target()@) =~= ksx);
                assert(crate::model::rects_of(by.target()@) =~= ry);
                assert(crate::model::keys_of(by.target()@) =~= ksy);
                let ordered = cross_hits(
                    rx,
                    ry,
                    axis,
                    also,
                    iy as int,
                    false,
                    from as int,
                    items@,
                    items@.len() as int,
                );
                let fresh = Set::new(
                    |p: (int, int)|
                        p.1 == iy && 0 <= p.0 < ix && rx[p.0].range(axis).meets(
                            ry[p.1].range(axis),
                        ) && admits(also, rx[p.0], ry[p.1]),
                );
                assert forall|p: (int, int)| #[trigger] ordered.contains(p) implies fresh.contains(
                    p,
                ) by {
                    let t = choose|t: int| 0 <= t < items@.len() && (#[trigger] items@[t]) == p.0;
                    assert(items@[t] < ix);
                    assert(rx[p.0].valid() && ry[iy as int].valid());
                }
                assert forall|q: (int, int)| #[trigger] fresh.contains(q) implies ordered.contains(
                    q,
                ) by {
                    assert(rx[q.0].valid() && ry[iy as int].valid());
                    if iy > 0 {
                        assert(ry[iy - 1].range(axis).start <= ry[iy as int].range(axis).start);
                    }
                    assert(active_x(rx, ry, axis, ix as int, iy as int, q.0));
                    assert(mx0.count(q.0 as usize) == 1);
                    assert(items@.contains(q.0 as usize));
                    let t = choose|t: int| 0 <= t < items@.len() && items@[t] == q.0 as usize;
                    assert(listed(items@, items@.len() as int, q.0));
                }
                assert(ordered =~= fresh);
                crate::model::lemma_exact_seq_concat(pairs, done, step@, fresh);
                crate::model::lemma_at_pairs2_concat(rx, ry, pairs, step@);
                crate::model::lemma_at_pairs2_concat(ksx, ksy, pairs, step@);
                assert(done.union(fresh) =~= swept_upto(rx, ry, axis, also, ix as int, iy + 1));
                pairs = pairs + step@;
            }
            first_retain(active, bx.as_ref(), axis, from);
            second_push(active, iy);
            proof {
                broadcast use vstd::multiset::group_multiset_axioms;
                broadcast use vstd::seq_lib::group_to_multiset_ensures;

                let mx2 = crate::util::first_items(*active).to_multiset();
                let my2 = crate::util::second_items(*active).to_multiset();
                assert forall|i: usize| (#[trigger] mx2.count(i)) == (if active_x(
                    rx,
                    ry,
                    axis,
                    ix as int,
                    iy + 1,
                    i as int,
                ) {
                    1nat
                } else {
                    0nat
                }) by {
                    if i < nx {
                        assert(rx[i as int] == bx.target()@[i as int].rect());
                        assert(ksx[i as int] == bx.target()@[i as int].key());
                    }
                    if iy > 0 {
                        assert(ry[iy - 1].range(axis).start <= ry[iy as int].range(axis).start);
                    }
                }
                assert forall|j: usize| (#[trigger] my2.count(j)) == (if active_y(
                    rx,
                    ry,
                    axis,
                    ix as int,
                    iy + 1,
                    j as int,
                ) {
                    1nat
                } else {
                    0nat
                }) by {
                    if j == iy && ix > 0 {
                        assert(rx[ix - 1].range(axis).start < ry[iy as int].range(axis).start);
                        assert(ry[iy as int].valid());
                    }
                }
                assert forall|i: int, j: int| ix <= i < nx && 0 <= j < iy + 1 implies (
                #[trigger] ry[j]).range(axis).start <= (#[trigger] rx[i]).range(axis).start by {
                    if j == iy {
                        assert(rx[ix as int].range(axis).start <= rx[i].range(axis).start);
                    }
                }
            }
            iy += 1;
        }
    }
    prevec1.clear();
    let _ = bx.into_ref();
    let _ = by.into_ref();
    Ghost(pairs)
}

/// Shows the handler every pair of an element of the first group and an
/// element of the second whose intervals along `axis` intersect, each
/// pair once and the element of the first group first. Both groups are
/// sorted by their start along `axis`. The scratch lists are handed back
/// empty.
pub fn find_other_parallel3<F: CollisionHandler>(
    prevec1: &mut PreVec,
    axis: Axis,
    cols: (PMut<[F::T]>, PMut<[F::T]>),
    func: &mut F,
) -> (pairs: Ghost<Seq<(int, int)>>)
    requires
        old(func).inv(),
        crate::model::sorted_by_start(
            crate::model::rects_of(cols.0.target()@),
            axis,
            0,
            cols.0.target()@.len() as int,
        ),
        crate::model::sorted_by_start(
            crate::model::rects_of(cols.1.target()@),
            axis,
            0,
            cols.1.target()@.len() as int,
        ),
        crate::model::all_valid(
            crate::model::rects_of(cols.0.target()@),
            0,
            cols.0.target()@.len() as int,
        ),
        crate::model::all_valid(
            crate::model::rects_of(cols.1.target()@),
            0,
            cols.1.target()@.len() as int,
        ),
    ensures
        crate::model::rects_of(final(cols.0.target())@) == crate::model::rects_of(
            cols.0.target()@,
        ),
        crate::model::keys_of(final(cols.0.target())@) == crate::model::keys_of(
            cols.0.target()@,
        ),
        crate::model::rects_of(final(cols.1.target())@) == crate::model::rects_of(
            cols.1.target()@,
        ),
        crate::model::keys_of(final(cols.1.target())@) == crate::model::keys_of(
            cols.1.target()@,
        ),
        final(func).inv(),
        final(func).seen() == old(func).seen() + crate::model::at_pairs2(
            crate::model::rects_of(cols.0.target()@),
            crate::model::rects_of(cols.1.target()@),
            pairs@,
        ),
        final(func).seen_keys() == old(func).seen_keys() + crate::model::at_pairs2(
            crate::model::keys_of(cols.0.target()@),
            crate::model::keys_of(cols.1.target()@),
            pairs@,
        ),
        crate::model::exact_seq(
            pairs@,
            crate::model::cross_axis(
                crate::model::rects_of(cols.0.target()@),
                crate::model::rects_of(cols.1.target()@),
                axis,
            ),
        ),
        crate::util::first_items(final(prevec1).lists()) == Seq::<usize>::empty(),
        crate::util::second_items(final(prevec1).lists()) == Seq::<usize>::empty(),
{
    proof {
        let rx = crate::model::rects_of(cols.0.target()@);
        let ry = crate::model::rects_of(cols.1.target()@);
        assert(swept_upto(rx, ry, axis, None, rx.len() as int, ry.len() as int)
            =~= crate::model::cross_axis(rx, ry, axis));
    }
    sweep_two(prevec1, axis, None, cols, func)
}

/// Shows the handler every pair of an element of `bots1` and an element
/// of `bots2` whose rectangles intersect, each pair once, the element of
/// `bots1` first. Both groups are sorted by their start along `axis`: the
/// sweep along `axis` finds the pairs that meet along it, and of those
/// the ones that meet along the other axis as well are shown. The scratch
/// lists are handed back empty.
pub fn find_parallel_2d<F: CollisionHandler>(
    prevec1: &mut PreVec,
    axis: Axis,
    bots1: PMut<[F::T]>,
    bots2: PMut<[F::T]>,
    clos2: &mut F,
) -> (pairs: Ghost<Seq<(int, int)>>)
    requires
        old(clos2).inv(),
        crate::model::sorted_by_start(
            crate::model::rects_of(bots1.target()@),
            axis,
            0,
            bots1.target()@.len() as int,
        ),
        crate::model::sorted_by_start(
            crate::model::rects_of(bots2.target()@),
            axis,
            0,
            bots2.target()@.len() as int,
        ),
        crate::model::all_valid(
            crate::model::rects_of(bots1.target()@),
            0,
            bots1.target()@.len() as int,
        ),
        crate::model::all_valid(
            crate::model::rects_of(bots2.target()@),
            0,
            bots2.target()@.len() as int,
        ),
    ensures
        crate::model::rects_of(final(bots1.target())@) == crate::model::rects_of(bots1.target()@),
        crate::model::keys_of(final(bots1.target())@) == crate::model::keys_of(bots1.target()@),
        crate::model::rects_of(final(bots2.target())@) == crate::model::rects_of(bots2.target()@),
        crate::model::keys_of(final(bots2.target())@) == crate::model::keys_of(bots2.target()@),
        final(clos2).inv(),
        final(clos2).seen() == old(clos2).seen() + crate::model::at_pairs2(
            crate::model::rects_of(bots1.target()@),
            crate::model::rects_of(bots2.target()@),
            pairs@,
        ),
        final(clos2).seen_keys() == old(clos2).seen_keys() + crate::model::at_pairs2(
            crate::model::keys_of(bots1.target()@),
            crate::model::keys_of(bots2.target()@),
            pairs@,
        ),
        crate::model::exact_seq(
            pairs@,
            crate::model::cross(
                crate::model::rects_of(bots1.target()@),
                crate::model::rects_of(bots2.target()@),
            ),
        ),
        crate::util::first_items(final(prevec1).lists()) == Seq::<usize>::empty(),
        crate::util::second_items(final(prevec1).lists()) == Seq::<usize>::empty(),
{
    let also = Some(axis.next());
    proof {
        let rx = crate::model::rects_of(bots1.target()@);
        let ry = crate::model::rects_of(bots2.target()@);
        assert(swept_upto(rx, ry, axis, also, rx.len() as int, ry.len() as int)
            =~= crate::model::cross(rx, ry));
    }
    sweep_two(prevec1, axis, also, (bots1, bots2), clos2)
}

/// The intersecting pairs among the first `ix` positions of one group and
/// the first `iy` of the other.
pub open spec fn cross_upto(rx: Seq<Rect>, ry: Seq<Rect>, ix: int, iy: int) -> Set<(int, int)> {
    Set::new(|p: (int, int)| 0 <= p.0 < ix && 0 <= p.1 < iy && rx[p.0].meets(ry[p.1]))
}

/// The intersecting pairs of position `i` of one group and one of the
/// first `upto` positions of the other.
pub open spec fn row_upto(rx: Seq<Rect>, ry: Seq<Rect>, i: int, upto: int) -> Set<(int, int)> {
    Set::new(|p: (int, int)| p.0 == i && 0 <= p.1 < upto && rx[p.0].meets(ry[p.1]))
}

/// Compares the element at `i` of `r1` with the elements of `r2` in
/// order, up to the first that starts after it ends along `axis`.
fn perp_row<F: CollisionHandler>(
    axis: Axis,
    r1: PMut<[F::T]>,
    i: usize,
    r2: PMut<[F::T]>,
    clos2: &mut F,
) -> (pairs: Ghost<Seq<(int, int)>>)
    requires
        old(clos2).inv(),
        i < r1.target()@.len(),
        crate::model::sorted_by_start(
            crate::model::rects_of(r2.target()@),
            axis,
            0,
            r2.target()@.len() as int,
        ),
    ensures
        crate::model::rects_of(final(r1.target())@) == crate::model::rects_of(r1.target()@),
        crate::model::keys_of(final(r1.target())@) == crate::model::keys_of(r1.target()@),
        crate::model::rects_of(final(r2.target())@) == crate::model::rects_of(r2.target()@),
        crate::model::keys_of(final(r2.target())@) == crate::model::keys_of(r2.target()@),
        final(clos2).inv(),
        final(clos2).seen() == old(clos2).seen() + crate::model::at_pairs2(
            crate::model::rects_of(r1.target()@),
            crate::model::rects_of(r2.target()@),
            pairs@,
        ),
        final(clos2).seen_keys() == old(clos2).seen_keys() + crate::model::at_pairs2(
            crate::model::keys_of(r1.target()@),
            crate::model::keys_of(r2.target()@),
            pairs@,
        ),
        crate::model::exact_seq(
            pairs@,
            row_upto(
                crate::model::rects_of(r1.target()@),
                crate::model::rects_of(r2.target()@),
                i as int,
                r2.target()@.len() as int,
            ),
        ),
{
    let ghost rx = crate::model::rects_of(r1.target()@);
    let ghost ksx = crate::model::keys_of(r1.target()@);
    let ghost ry = crate::model::rects_of(r2.target()@);
    let ghost ksy = crate::model::keys_of(r2.target()@);
    let ghost mut pairs: Seq<(int, int)> = Seq::empty();
    let mut bx = r1;
    let mut by = r2;
    let n2 = by.len();
    let y_start = bx.as_ref()[i].get().get_range(axis).start;
    let y_end = bx.as_ref()[i].get().get_range(axis).end;
    let mut j: usize = 0;
    let mut go = true;
    proof {
        assert(rx[i as int] == bx.target()@[i as int].rect());
        assert(ksx[i as int] == bx.target()@[i as int].key());
        assert(old(clos2).seen() + crate::model::at_pairs2(rx, ry, pairs) =~= old(clos2).seen());
        assert(old(clos2).seen_keys() + crate::model::at_pairs2(ksx, ksy, pairs) =~= old(clos2).seen_keys());
    }
    while go && j < n2
        invariant
            j <= n2,
            n2 == ry.len(),
            i < rx.len(),
            rx.len() == bx.target()@.len(),
            ry.len() == by.target()@.len(),
            y_start == rx[i as int].range(axis).start,
            y_end == rx[i as int].range(axis).end,
            crate::model::rects_of(bx.target()@) == rx,
            crate::model::keys_of(bx.target()@) == ksx,
            crate::model::rects_of(by.target()@) == ry,
            crate::model::keys_of(by.target()@) == ksy,
            final(bx.target())@ == final(r1.target())@,
            final(by.target())@ == final(r2.target())@,
            crate::model::sorted_by_start(ry, axis, 0, n2 as int),
            !go ==> j < n2 && y_end < ry[j as int].range(axis).start,
            clos2.inv(),
            clos2.seen() == old(clos2).seen() + crate::model::at_pairs2(rx, ry, pairs),
            clos2.seen_keys() == old(clos2).seen_keys() + crate::model::at_pairs2(ksx, ksy, pairs),
            crate::model::exact_seq(pairs, row_upto(rx, ry, i as int, j as int)),
        decreases n2 - j + (if go { 1int } else { 0int }),
    {
        let other = by.as_ref()[j].get().get_range(axis);
        proof {
            assert(ry[j as int] == by.target()@[j as int].rect());
            assert(ksy[j as int] == by.target()@[j as int].key());
        }
        if y_end < other.start {
            // Sorted by start: no later element of the second group starts
            // early enough to meet this one.
            go = false;
        } else {
            let near = y_start <= other.end;
            let ghost before = row_upto(rx, ry, i as int, j as int);
            let ghost x = (i as int, j as int);
            let mut shown = false;
            if near {
                let a1 = bx.borrow_mut().get_index_mut(i);
                let a2 = by.borrow_mut().get_index_mut(j);
                shown = collide_if_meet(axis.next(), a1, a2, clos2);
            }
            proof {
                assert(crate::model::rects_of(bx.target()@) =~= rx);
                assert(crate::model::keys_of(bx.target()@) =~= ksx);
                assert(crate::model::rects_of(by.target()@) =~= ry);
                assert(crate::model::keys_of(by.target()@) =~= ksy);
                if shown {
                    crate::model::lemma_exact_seq_push(pairs, before, x);
                    crate::model::lemma_at_pairs2_push(rx, ry, pairs, x);
                    crate::model::lemma_at_pairs2_push(ksx, ksy, pairs, x);
                    assert(before.insert(x) =~= row_upto(rx, ry, i as int, j + 1));
                    assert(old(clos2).seen() + crate::model::at_pairs2(rx, ry, pairs.push(x))
                        =~= (old(clos2).seen() + crate::model::at_pairs2(rx, ry, pairs)).push(
                        (rx[x.0], ry[x.1]),
                    ));
                    assert(old(clos2).seen_keys() + crate::model::at_pairs2(ksx, ksy, pairs.push(x))
                        =~= (old(clos2).seen_keys() + crate::model::at_pairs2(ksx, ksy, pairs)).push(
                        (ksx[x.0], ksy[x.1]),
                    ));
                    pairs = pairs.push(x);
                } else {
                    assert(before =~= row_upto(rx, ry, i as int, j + 1));
                }
            }
            j += 1;
        }
    }
    proof {
        assert(row_upto(rx, ry, i as int, j as int) =~= row_upto(rx, ry, i as int, n2 as int)) by {
            assert forall|p: (int, int)| row_upto(rx, ry, i as int, n2 as int).contains(
                p,
            ) implies p.1 < j by {
                if p.1 >= j {
                    assert(ry[j as int].range(axis).start <= ry[p.1].range(axis).start);
                }
            }
        }
    }
    let _ = bx.into_ref();
    let _ = by.into_ref();
    Ghost(pairs)
}

/// Shows the handler every pair of an element of `r1` and an element of
/// `r2` whose rectangles intersect, each pair once, the element of `r1`
/// first. Only `r2` is sorted by start along `axis`: each element of `r1`
/// is compared with the elements of `r2` in order, up to the first that
/// starts after it ends.
pub fn find_perp_2d1<F: CollisionHandler>(
    axis: Axis,
    r1: PMut<[F::T]>,
    r2: PMut<[F::T]>,
    clos2: &mut F,
) -> (pairs: Ghost<Seq<(int, int)>>)
    requires
        old(clos2).inv(),
        crate::model::sorted_by_start(
            crate::model::rects_of(r2.target()@),
            axis,
            0,
            r2.target()@.len() as int,
        ),
    ensures
        crate::model::rects_of(final(r1.target())@) == crate::model::rects_of(r1.target()@),
        crate::model::keys_of(final(r1.target())@) == crate::model::keys_of(r1.target()@),
        crate::model::rects_of(final(r2.target())@) == crate::model::rects_of(r2.target()@),
        crate::model::keys_of(final(r2.target())@) == crate::model::keys_of(r2.target()@),
        final(clos2).inv(),
        final(clos2).seen() == old(clos2).seen() + crate::model::at_pairs2(
            crate::model::rects_of(r1.target()@),
            crate::model::rects_of(r2.target()@),
            pairs@,
        ),
        final(clos2).seen_keys() == old(clos2).seen_keys() + crate::model::at_pairs2(
            crate::model::keys_of(r1.target()@),
            crate::model::keys_of(r2.target()@),
            pairs@,
        ),
        crate::model::exact_seq(
            pairs@,
            crate::model::cross(
                crate::model::rects_of(r1.target()@),
                crate::model::rects_of(r2.target()@),
            ),
        ),
{
    let ghost rx = crate::model::rects_of(r1.target()@);
    let ghost ksx = crate::model::keys_of(r1.target()@);
    let ghost ry = crate::model::rects_of(r2.target()@);
    let ghost ksy = crate::model::keys_of(r2.target()@);
    let ghost mut pairs: Seq<(int, int)> = Seq::empty();
    let mut bx = r1;
    let mut by = r2;
    let n1 = bx.len();
    let mut i: usize = 0;
    proof {
        assert(old(clos2).seen() + crate::model::at_pairs2(rx, ry, pairs) =~= old(clos2).seen());
        assert(old(clos2).seen_keys() + crate::model::at_pairs2(ksx, ksy, pairs) =~= old(clos2).seen_keys());
    }
    while i < n1
        invariant
            i <= n1,
            n1 == rx.len(),
            rx.len() == bx.target()@.len(),
            ry.len() == by.target()@.len(),
            crate::model::rects_of(bx.target()@) == rx,
            crate::model::keys_of(bx.target()@) == ksx,
            crate::model::rects_of(by.target()@) == ry,
            crate::model::keys_of(by.target()@) == ksy,
            final(bx.target())@ == final(r1.target())@,
            final(by.target())@ == final(r2.target())@,
            crate::model::sorted_by_start(ry, axis, 0, ry.len() as int),
            clos2.inv(),
            clos2.seen() == old(clos2).seen() + crate::model::at_pairs2(rx, ry, pairs),
            clos2.seen_keys() == old(clos2).seen_keys() + crate::model::at_pairs2(ksx, ksy, pairs),
            crate::model::exact_seq(pairs, cross_upto(rx, ry, i as int, ry.len() as int)),
        decreases n1 - i,
    {
        let row = perp_row(axis, bx.borrow_mut(), i, by.borrow_mut(), clos2);
        proof {
            assert(crate::model::rects_of(bx.target()@) =~= rx);
            assert(crate::model::keys_of(bx.target()@) =~= ksx);
            assert(crate::model::rects_of(by.target()@) =~= ry);
            assert(crate::model::keys_of(by.target()@) =~= ksy);
            let done = cross_upto(rx, ry, i as int, ry.len() as int);
            let fresh = row_upto(rx, ry, i as int, ry.len() as int);
            crate::model::lemma_exact_seq_concat(pairs, done, row@, fresh);
            crate::model::lemma_at_pairs2_concat(rx, ry, pairs, row@);
            crate::model::lemma_at_pairs2_concat(ksx, ksy, pairs, row@);
            assert(done.union(fresh) =~= cross_upto(rx, ry, i + 1, ry.len() as int));
            pairs = pairs + row@;
        }
        i += 1;
    }
    proof {
        assert(cross_upto(rx, ry, n1 as int, ry.len() as int) =~= crate::model::cross(rx, ry));
    }
    let _ = bx.into_ref();
    let _ = by.into_ref();
    Ghost(pairs)
}

} // verus!
