//! Building a tree: median split on alternating axes, with the elements
//! that straddle a divider kept at the node that owns it.

use vstd::prelude::*;
use crate::geom::{Axis, Range};
use crate::node::{Aabb, Node};
use crate::query::tools::swap_at;
use crate::tree::analyze::{
    compute_tree_height_heuristic, DEFAULT_NUMBER_ELEM_PER_NODE, HEIGHT_LIMIT,
};
use crate::tree::par::{default_policy, ParResult, Parallel};
use crate::tree::{container_from_preorder, Tree};
use crate::util::{select_nth, sweeper_update};

verus! {

/// Whether every element has a valid rectangle: what building a tree asks
/// of its input.
pub fn all_rects_valid<T: Aabb>(bots: &[T]) -> (r: bool)
    ensures
        r == crate::model::all_valid(crate::model::rects_of(bots@), 0, bots@.len() as int),
{
    let ghost rects = crate::model::rects_of(bots@);
    let mut i: usize = 0;
    while i < bots.len()
        invariant
            i <= bots@.len(),
            rects == crate::model::rects_of(bots@),
            crate::model::all_valid(rects, 0, i as int),
        decreases bots@.len() - i,
    {
        proof {
            assert(rects[i as int] == bots@[i as int].rect());
        }
        if !bots[i].get().is_valid() {
            return false;
        }
        i += 1;
    }
    true
}

/// Sorts the elements at `lo..hi` by their start along `axis`, and by
/// their end where the starts are equal.
pub fn sort_range<T: Aabb>(axis: Axis, elems: &mut [T], lo: usize, hi: usize)
    requires
        lo <= hi <= old(elems)@.len(),
    ensures
        crate::model::rearranged(old(elems)@, final(elems)@, lo as int, hi as int),
        crate::model::sorted_by_key(
            crate::model::rects_of(final(elems)@),
            axis,
            lo as int,
            hi as int,
        ),
{
    let (head, _tail) = elems.split_at_mut(hi);
    let (_skip, mid) = head.split_at_mut(lo);
    sweeper_update(axis, mid);
    proof {
        assert(elems@.subrange(lo as int, hi as int) =~= mid@);
        assert(old(elems)@.subrange(lo as int, hi as int) =~= old(elems)@.subrange(
            0,
            hi as int,
        ).subrange(lo as int, hi as int));
        let r = crate::model::rects_of(elems@);
        let rm = crate::model::rects_of(mid@);
        assert forall|i: int, j: int| lo <= i <= j < hi implies crate::model::key_le(
            #[trigger] r[i],
            #[trigger] r[j],
            axis,
        ) by {
            assert(r[i] == rm[i - lo]);
            assert(r[j] == rm[j - lo]);
            assert(crate::model::key_le(rm[i - lo], rm[j - lo], axis));
        }
    }
}

/// Finds the median start along `axis` of the elements at `lo..hi`,
/// rearranging them as far as a selection needs.
pub fn median_range<T: Aabb>(axis: Axis, elems: &mut [T], lo: usize, hi: usize) -> (m: i64)
    requires
        lo < hi <= old(elems)@.len(),
    ensures
        crate::model::rearranged(old(elems)@, final(elems)@, lo as int, hi as int),
        crate::model::is_median_start(
            crate::model::rects_of(final(elems)@),
            axis,
            lo as int,
            hi as int,
            m as int,
        ),
{
    let index = (hi - lo) / 2;
    let (head, _tail) = elems.split_at_mut(hi);
    let (_skip, mid) = head.split_at_mut(lo);
    select_nth(axis, mid, index);
    let m = mid[index].get().get_range(axis).start;
    proof {
        assert(elems@.subrange(lo as int, hi as int) =~= mid@);
        assert(old(elems)@.subrange(lo as int, hi as int) =~= old(elems)@.subrange(
            0,
            hi as int,
        ).subrange(lo as int, hi as int));
        let rm = crate::model::rects_of(mid@);
        let r = crate::model::rects_of(elems@);
        let n = (hi - lo) as int;
        assert(r.subrange(lo as int, hi as int) =~= rm);
        assert(rm.subrange(0, n) =~= rm);
        assert(rm[index as int] == mid@[index as int].rect());
        let pa = |x: crate::geom::Rect| x.range(axis).start < m;
        let pb = |x: crate::geom::Rect| x.range(axis).start <= m;
        assert forall|i: int| index <= i < rm.len() implies !pa(#[trigger] rm[i]) by {
            assert(rm[i] == mid@[i].rect());
        }
        assert forall|i: int| 0 <= i < index + 1 implies pb(#[trigger] rm[i]) by {
            assert(rm[i] == mid@[i].rect());
        }
        crate::model::lemma_count_if_at_most(rm, pa, index as int, n);
        crate::model::lemma_count_if_at_least(rm, pb, index + 1, n);
    }
    m
}

/// Rearranges the elements at `lo..hi` into three runs by how their
/// interval along `axis` lies to the divider `m`: first those that contain
/// it, then those that end before it, last those that start after it.
/// Returns where the second and the third run begin.
pub fn partition3<T: Aabb>(axis: Axis, elems: &mut [T], lo: usize, hi: usize, m: i64) -> (r: (
    usize,
    usize,
))
    requires
        lo <= hi <= old(elems)@.len(),
    ensures
        crate::model::rearranged(old(elems)@, final(elems)@, lo as int, hi as int),
        lo <= r.0 <= r.1 <= hi,
        forall|i: int|
            lo <= i < r.0 ==> (#[trigger] final(elems)@[i]).rect().range(axis).has(m as int),
        forall|i: int| r.0 <= i < r.1 ==> (#[trigger] final(elems)@[i]).rect().range(axis).end < m,
        forall|i: int| r.1 <= i < hi ==> (#[trigger] final(elems)@[i]).rect().range(axis).start > m,
{
    let mut a = lo;
    let mut b = lo;
    let mut c = hi;
    proof {
        crate::model::lemma_rearranged_refl(old(elems)@, lo as int, hi as int);
    }
    while b < c
        invariant
            lo <= a <= b <= c <= hi,
            hi <= elems@.len(),
            crate::model::rearranged(old(elems)@, elems@, lo as int, hi as int),
            forall|i: int| lo <= i < a ==> (#[trigger] elems@[i]).rect().range(axis).has(m as int),
            forall|i: int| a <= i < b ==> (#[trigger] elems@[i]).rect().range(axis).end < m,
            forall|i: int| c <= i < hi ==> (#[trigger] elems@[i]).rect().range(axis).start > m,
        decreases c - b,
    {
        let ghost before = elems@;
        let range = *elems[b].get().get_range(axis);
        if range.end < m {
            b += 1;
        } else if range.start <= m {
            swap_at(elems, a, b);
            proof {
                crate::model::lemma_rearranged_swap(before, lo as int, hi as int, a as int, b as int);
                crate::model::lemma_rearranged_trans(
                    old(elems)@,
                    before,
                    elems@,
                    lo as int,
                    hi as int,
                );
            }
            a += 1;
            b += 1;
        } else {
            swap_at(elems, b, c - 1);
            proof {
                crate::model::lemma_rearranged_swap(
                    before,
                    lo as int,
                    hi as int,
                    b as int,
                    c - 1,
                );
                crate::model::lemma_rearranged_trans(
                    old(elems)@,
                    before,
                    elems@,
                    lo as int,
                    hi as int,
                );
            }
            c -= 1;
        }
    }
    (a, b)
}

/// The tight span along `axis` of the elements at `lo..hi`.
pub fn compute_cont<T: Aabb>(axis: Axis, elems: &[T], lo: usize, hi: usize) -> (cont: Option<Range>)
    requires
        lo <= hi <= elems@.len(),
    ensures
        crate::model::is_cont(crate::model::rects_of(elems@), axis, lo as int, hi as int, cont),
{
    if lo == hi {
        return None;
    }
    let ghost r = crate::model::rects_of(elems@);
    let mut c = *elems[lo].get().get_range(axis);
    let mut i = lo + 1;
    proof {
        assert(r[lo as int] == elems@[lo as int].rect());
    }
    while i < hi
        invariant
            lo < i <= hi,
            hi <= elems@.len(),
            r == crate::model::rects_of(elems@),
            crate::model::is_cont(r, axis, lo as int, i as int, Some(c)),
        decreases hi - i,
    {
        let ghost c0 = c;
        let range = elems[i].get().get_range(axis);
        c.grow_to_fit(range);
        proof {
            assert(r[i as int] == elems@[i as int].rect());
            let ws = choose|k: int| lo <= k < i && (#[trigger] r[k]).range(axis).start == c0.start;
            let we = choose|k: int| lo <= k < i && (#[trigger] r[k]).range(axis).end == c0.end;
            let ns = if range.start < c0.start {
                i as int
            } else {
                ws
            };
            let ne = if range.end > c0.end {
                i as int
            } else {
                we
            };
            assert(lo <= ns < i + 1 && r[ns].range(axis).start == c.start);
            assert(lo <= ne < i + 1 && r[ne].range(axis).end == c.end);
            assert forall|k: int| lo <= k < i + 1 implies c.encloses((#[trigger] r[k]).range(axis)) by {
                if k < i {
                    assert(c0.encloses(r[k].range(axis)));
                }
            }
        }
        i += 1;
    }
    Some(c)
}

/// Builds the subtree of `height` levels over the elements at `lo..hi`
/// and appends its nodes, in pre-order, to `nodes`.
///
/// A leaf, or a node whose elements are at most `bucket`, keeps them all.
/// Any other node is divided at the median start along `axis`: it keeps the
/// elements that contain the divider, and the rest go left or right.
pub fn recurse_build<T: Aabb>(
    elems: &mut [T],
    lo: usize,
    hi: usize,
    axis: Axis,
    height: usize,
    bucket: usize,
    nodes: &mut Vec<Node>,
)
    requires
        1 <= height,
        lo <= hi <= old(elems)@.len(),
    ensures
        final(nodes)@.len() == old(nodes)@.len() + crate::model::subtree_len(height as nat),
        final(nodes)@.subrange(0, old(nodes)@.len() as int) == old(nodes)@,
        crate::model::rearranged(old(elems)@, final(elems)@, lo as int, hi as int),
        crate::model::subtree_wf(
            final(nodes)@,
            crate::model::rects_of(final(elems)@),
            old(nodes)@.len() as int,
            height as nat,
            axis,
            lo as int,
            hi as int,
            bucket as nat,
        ),
    decreases height,
{
    let ghost at = old(nodes)@.len() as int;
    let ghost h1 = (height - 1) as nat;
    if height == 1 || hi - lo <= bucket {
        sort_range(axis, elems, lo, hi);
        let cont = compute_cont(axis, elems, lo, hi);
        nodes.push(Node { start: lo, end: hi, cont, div: None });
        let ghost e1 = elems@;
        let ghost n1 = nodes@;
        if height > 1 {
            recurse_build(elems, hi, hi, axis.next(), height - 1, bucket, nodes);
            let ghost n2 = nodes@;
            let ghost e2 = elems@;
            recurse_build(elems, hi, hi, axis.next(), height - 1, bucket, nodes);
            proof {
                let r = crate::model::rects_of(elems@);
                assert(e2 =~= e1);
                assert(elems@ =~= e1);
                assert(n2 == nodes@.subrange(0, n2.len() as int));
                assert(n1 == n2.subrange(0, n1.len() as int));
                assert forall|k: int| 0 <= k < n1.len() implies #[trigger] nodes@[k] == n1[k] by {
                    assert(n2[k] == nodes@.subrange(0, n2.len() as int)[k]);
                    assert(n1[k] == n2.subrange(0, n1.len() as int)[k]);
                }
                assert(n1 == old(nodes)@.push(n1[at]));
            assert forall|k: int| 0 <= k < at implies #[trigger] nodes@[k] == old(nodes)@[k] by {
                assert(n1[k] == old(nodes)@[k]);
            }
            assert(nodes@.subrange(0, at) =~= old(nodes)@);
                crate::model::lemma_subtree_wf_frame(
                    n2,
                    r,
                    nodes@,
                    r,
                    at + 1,
                    h1,
                    axis.other(),
                    hi as int,
                    hi as int,
                    bucket as nat,
                );
                let right = at + 1 + crate::model::subtree_len(h1);
                assert(nodes@[right].start == hi);
            }
        } else {
            proof {
                assert(n1 == old(nodes)@.push(n1[at]));
            assert forall|k: int| 0 <= k < at implies #[trigger] nodes@[k] == old(nodes)@[k] by {
                assert(n1[k] == old(nodes)@[k]);
            }
            assert(nodes@.subrange(0, at) =~= old(nodes)@);
                assert(crate::model::subtree_len(1) == 1) by {
                    reveal_with_fuel(crate::model::subtree_len, 2);
                }
            }
        }
    } else {
        let m = median_range(axis, elems, lo, hi);
        let ghost e1 = elems@;
        let (mid_end, left_end) = partition3(axis, elems, lo, hi, m);
        let ghost e2 = elems@;
        sort_range(axis, elems, lo, mid_end);
        let ghost e3 = elems@;
        let cont = compute_cont(axis, elems, lo, mid_end);
        nodes.push(Node { start: lo, end: mid_end, cont, div: Some(m) });
        let ghost n1 = nodes@;
        recurse_build(elems, mid_end, left_end, axis.next(), height - 1, bucket, nodes);
        let ghost e4 = elems@;
        let ghost n2 = nodes@;
        recurse_build(elems, left_end, hi, axis.next(), height - 1, bucket, nodes);
        proof {
            let e5 = elems@;
            let r3 = crate::model::rects_of(e3);
            let r4 = crate::model::rects_of(e4);
            let r = crate::model::rects_of(e5);
            let right = at + 1 + crate::model::subtree_len(h1);
            assert(n2 == nodes@.subrange(0, n2.len() as int));
            assert(n1 == n2.subrange(0, n1.len() as int));
            assert(nodes@[at] == n1[at]);
            assert forall|k: int| 0 <= k < n1.len() implies #[trigger] nodes@[k] == n1[k] by {
                assert(n2[k] == nodes@.subrange(0, n2.len() as int)[k]);
                assert(n1[k] == n2.subrange(0, n1.len() as int)[k]);
            }
            assert(n1 == old(nodes)@.push(n1[at]));
            assert forall|k: int| 0 <= k < at implies #[trigger] nodes@[k] == old(nodes)@[k] by {
                assert(n1[k] == old(nodes)@[k]);
            }
            assert(nodes@.subrange(0, at) =~= old(nodes)@);
            assert(right == n2.len());
            // The elements: each step rearranged a part of `lo..hi`.
            crate::model::lemma_rearranged_trans(old(elems)@, e1, e2, lo as int, hi as int);
            crate::model::lemma_rearranged_widen(
                e2,
                e3,
                lo as int,
                hi as int,
                lo as int,
                mid_end as int,
            );
            crate::model::lemma_rearranged_trans(old(elems)@, e2, e3, lo as int, hi as int);
            crate::model::lemma_rearranged_widen(
                e3,
                e4,
                lo as int,
                hi as int,
                mid_end as int,
                left_end as int,
            );
            crate::model::lemma_rearranged_trans(old(elems)@, e3, e4, lo as int, hi as int);
            crate::model::lemma_rearranged_widen(
                e4,
                e5,
                lo as int,
                hi as int,
                left_end as int,
                hi as int,
            );
            crate::model::lemma_rearranged_trans(old(elems)@, e4, e5, lo as int, hi as int);
            // The node's own elements were last touched by the sort.
            crate::model::lemma_rearranged_forall(
                e2,
                e3,
                lo as int,
                mid_end as int,
                |t: T| t.rect().range(axis).has(m as int),
            );
            assert forall|i: int| lo <= i < mid_end implies #[trigger] r3[i] == r[i] by {
                assert(e3[i] == e4[i]);
                assert(e4[i] == e5[i]);
            }
            crate::model::lemma_node_facts_frame(r3, r, axis, lo as int, mid_end as int, cont);
            assert forall|i: int| lo <= i < mid_end implies (#[trigger] r[i]).range(axis).has(
                m as int,
            ) by {
                assert(r[i] == e3[i].rect());
            }
            // The left run was rearranged by the left subtree only.
            assert forall|i: int| mid_end <= i < left_end implies (#[trigger] e3[i]).rect().range(
                axis,
            ).end < m by {
                assert(e3[i] == e2[i]);
            }
            crate::model::lemma_rearranged_forall(
                e3,
                e4,
                mid_end as int,
                left_end as int,
                |t: T| t.rect().range(axis).end < m,
            );
            assert forall|i: int| mid_end <= i < left_end implies (#[trigger] r[i]).range(axis).end
                < m by {
                assert(e4[i] == e5[i]);
                assert(r[i] == e4[i].rect());
            }
            // The right run was rearranged by the right subtree only.
            assert forall|i: int| left_end <= i < hi implies (#[trigger] e4[i]).rect().range(
                axis,
            ).start > m by {
                assert(e4[i] == e3[i]);
                assert(e3[i] == e2[i]);
            }
            crate::model::lemma_rearranged_forall(
                e4,
                e5,
                left_end as int,
                hi as int,
                |t: T| t.rect().range(axis).start > m,
            );
            assert forall|i: int| left_end <= i < hi implies (#[trigger] r[i]).range(axis).start
                > m by {
                assert(r[i] == e5[i].rect());
            }
            // The left subtree is untouched by the building of the right.
            assert forall|i: int| mid_end <= i < left_end implies #[trigger] r4[i] == r[i] by {
                assert(e4[i] == e5[i]);
            }
            crate::model::lemma_subtree_wf_frame(
                n2,
                r4,
                nodes@,
                r,
                at + 1,
                h1,
                axis.other(),
                mid_end as int,
                left_end as int,
                bucket as nat,
            );
            assert(nodes@[right].start == left_end);
            // The divider is still the median start of all of `lo..hi`.
            crate::model::lemma_rearranged_trans(e1, e2, e3, lo as int, hi as int);
            crate::model::lemma_rearranged_trans(e1, e3, e4, lo as int, hi as int);
            crate::model::lemma_rearranged_trans(e1, e4, e5, lo as int, hi as int);
            crate::model::lemma_median_rearranged(e1, e5, axis, lo as int, hi as int, m as int);
        }
    }
}

/// Calls `rayon::join` on two closures, each of which makes one call of
/// [`recurse_build_par`]: the one on the front part of the slice, the
/// other on the rest. Trusted: `join` runs both closures to their end
/// and returns what they return, so that what `recurse_build_par` ensures
/// of one call holds of each of the two.
#[verifier::external_body]
fn join_builds<T: Aabb + Send>(
    axis: Axis,
    height: usize,
    bucket: usize,
    par_left: Parallel,
    par_right: Parallel,
    left_elems: &mut [T],
    left_lo: usize,
    left_hi: usize,
    right_elems: &mut [T],
    right_hi: usize,
) -> (r: (Vec<Node>, Vec<Node>))
    requires
        1 <= height,
        left_lo <= left_hi,
        left_hi == old(left_elems)@.len(),
        right_hi <= old(right_elems)@.len(),
    ensures
        r.0@.len() == crate::model::subtree_len(height as nat),
        crate::model::rearranged(
            old(left_elems)@,
            final(left_elems)@,
            left_lo as int,
            old(left_elems)@.len() as int,
        ),
        crate::model::subtree_wf(
            r.0@,
            crate::model::rects_of(final(left_elems)@),
            0,
            height as nat,
            axis,
            left_lo as int,
            old(left_elems)@.len() as int,
            bucket as nat,
        ),
        r.1@.len() == crate::model::subtree_len(height as nat),
        crate::model::rearranged(old(right_elems)@, final(right_elems)@, 0, right_hi as int),
        crate::model::subtree_wf(
            r.1@,
            crate::model::rects_of(final(right_elems)@),
            0,
            height as nat,
            axis,
            0,
            right_hi as int,
            bucket as nat,
        ),
{
    rayon::join(
        || recurse_build_par(left_elems, left_lo, left_hi, axis, height, bucket, par_left),
        || recurse_build_par(right_elems, 0, right_hi, axis, height, bucket, par_right),
    )
}

/// What two workers did to the two runs of a slice, seen on the slice.
proof fn lemma_fork_elems<T>(
    e3: Seq<T>,
    e5: Seq<T>,
    head0: Seq<T>,
    head1: Seq<T>,
    tail0: Seq<T>,
    tail1: Seq<T>,
    rest0: Seq<T>,
    mid_end: int,
    right_len: int,
)
    requires
        e3 == head0 + tail0 + rest0,
        e5 == head1 + tail1 + rest0,
        tail0.len() == right_len,
        crate::model::rearranged(head0, head1, mid_end, head0.len() as int),
        crate::model::rearranged(tail0, tail1, 0, right_len),
    ensures
        crate::model::rearranged(e3, e5, mid_end, head0.len() + right_len),
        forall|i: int| 0 <= i < head0.len() ==> #[trigger] e5[i] == head1[i],
        forall|i: int| 0 <= i < head0.len() ==> #[trigger] e3[i] == head0[i],
        forall|i: int| 0 <= i < right_len ==> #[trigger] tail1[i] == e5[i + head0.len()],
        forall|i: int| 0 <= i < right_len ==> #[trigger] tail0[i] == e3[i + head0.len()],
{
    let hi = head0.len() + right_len;
    let a = head0 + tail0;
    let b = head1 + tail1;
    crate::model::lemma_rearranged_concat(head0, head1, tail0, tail1, mid_end, right_len);
    assert(e3.subrange(mid_end, hi) =~= a.subrange(mid_end, hi));
    assert(e5.subrange(mid_end, hi) =~= b.subrange(mid_end, hi));
    assert forall|i: int| 0 <= i < e3.len() && !(mid_end <= i < hi) implies #[trigger] e3[i]
        == e5[i] by {
        if i < hi {
            assert(a[i] == b[i]);
            assert(e3[i] == a[i]);
            assert(e5[i] == b[i]);
        }
    }
}

/// After the fork the two runs still lie on their sides of the divider.
proof fn lemma_fork_classes<T: Aabb>(
    e3: Seq<T>,
    e5: Seq<T>,
    head0: Seq<T>,
    head1: Seq<T>,
    tail0: Seq<T>,
    tail1: Seq<T>,
    axis: Axis,
    mid_end: int,
    left_end: int,
    hi: int,
    m: i64,
)
    requires
        0 <= mid_end <= left_end <= hi <= e3.len(),
        e5.len() == e3.len(),
        head0.len() == left_end,
        tail0.len() == hi - left_end,
        crate::model::rearranged(head0, head1, mid_end, left_end),
        crate::model::rearranged(tail0, tail1, 0, hi - left_end),
        forall|i: int| 0 <= i < left_end ==> #[trigger] e5[i] == head1[i],
        forall|i: int| 0 <= i < left_end ==> #[trigger] e3[i] == head0[i],
        forall|i: int| 0 <= i < hi - left_end ==> #[trigger] tail1[i] == e5[i + left_end],
        forall|i: int| 0 <= i < hi - left_end ==> #[trigger] tail0[i] == e3[i + left_end],
        forall|i: int| mid_end <= i < left_end ==> (#[trigger] e3[i]).rect().range(axis).end < m,
        forall|i: int| left_end <= i < hi ==> (#[trigger] e3[i]).rect().range(axis).start > m,
    ensures
        forall|i: int| mid_end <= i < left_end ==> (#[trigger] e5[i]).rect().range(axis).end < m,
        forall|i: int| left_end <= i < hi ==> (#[trigger] e5[i]).rect().range(axis).start > m,
{
    assert forall|i: int| mid_end <= i < left_end implies (#[trigger] head0[i]).rect().range(
        axis,
    ).end < m by {
        assert(e3[i] == head0[i]);
    }
    crate::model::lemma_rearranged_forall(
        head0,
        head1,
        mid_end,
        left_end,
        |t: T| t.rect().range(axis).end < m,
    );
    assert forall|i: int| mid_end <= i < left_end implies (#[trigger] e5[i]).rect().range(axis).end
        < m by {
        assert(e5[i] == head1[i]);
    }
    assert forall|i: int| 0 <= i < hi - left_end implies (#[trigger] tail0[i]).rect().range(
        axis,
    ).start > m by {
        assert(tail0[i] == e3[i + left_end]);
    }
    crate::model::lemma_rearranged_forall(
        tail0,
        tail1,
        0,
        hi - left_end,
        |t: T| t.rect().range(axis).start > m,
    );
    assert forall|i: int| left_end <= i < hi implies (#[trigger] e5[i]).rect().range(axis).start
        > m by {
        assert(tail1[i - left_end] == e5[(i - left_end) + left_end]);
    }
}

/// The subtrees that two workers built stand, in the node array of the
/// whole, after the node: the left one as it is, the right one with its
/// element ranges moved up to where its elements stand in the slice.
proof fn lemma_fork_nodes<T: Aabb>(
    nodes: Seq<Node>,
    left_nodes: Seq<Node>,
    right_nodes: Seq<Node>,
    e5: Seq<T>,
    head1: Seq<T>,
    tail1: Seq<T>,
    axis: Axis,
    h1: nat,
    mid_end: int,
    left_end: int,
    hi: int,
    bucket: nat,
)
    requires
        h1 >= 1,
        0 <= mid_end <= left_end <= hi <= e5.len(),
        head1.len() == left_end,
        tail1.len() == hi - left_end,
        forall|i: int| 0 <= i < left_end ==> #[trigger] e5[i] == head1[i],
        forall|i: int| 0 <= i < hi - left_end ==> #[trigger] e5[i + left_end] == tail1[i],
        left_nodes.len() == crate::model::subtree_len(h1),
        right_nodes.len() == crate::model::subtree_len(h1),
        nodes.len() == 1 + 2 * crate::model::subtree_len(h1),
        crate::model::subtree_wf(
            left_nodes,
            crate::model::rects_of(head1),
            0,
            h1,
            axis,
            mid_end,
            left_end,
            bucket,
        ),
        crate::model::subtree_wf(
            right_nodes,
            crate::model::rects_of(tail1),
            0,
            h1,
            axis,
            0,
            hi - left_end,
            bucket,
        ),
        forall|k: int|
            0 <= k < left_nodes.len() ==> {
                &&& (#[trigger] nodes[1 + k]).start == left_nodes[k].start + 0
                &&& nodes[1 + k].end == left_nodes[k].end + 0
                &&& nodes[1 + k].cont == left_nodes[k].cont
                &&& nodes[1 + k].div == left_nodes[k].div
            },
        forall|k: int|
            0 <= k < right_nodes.len() ==> {
                &&& (#[trigger] nodes[1 + left_nodes.len() + k]).start == right_nodes[k].start
                    + left_end
                &&& nodes[1 + left_nodes.len() + k].end == right_nodes[k].end + left_end
                &&& nodes[1 + left_nodes.len() + k].cont == right_nodes[k].cont
                &&& nodes[1 + left_nodes.len() + k].div == right_nodes[k].div
            },
    ensures
        crate::model::subtree_wf(
            nodes,
            crate::model::rects_of(e5),
            1,
            h1,
            axis,
            mid_end,
            left_end,
            bucket,
        ),
        crate::model::subtree_wf(
            nodes,
            crate::model::rects_of(e5),
            1 + crate::model::subtree_len(h1) as int,
            h1,
            axis,
            left_end,
            hi,
            bucket,
        ),
        nodes[1 + crate::model::subtree_len(h1) as int].start == left_end,
{
    let r = crate::model::rects_of(e5);
    let rh = crate::model::rects_of(head1);
    let rt = crate::model::rects_of(tail1);
    let len1 = crate::model::subtree_len(h1) as int;
    crate::model::lemma_subtree_len_pos(h1);
    assert forall|i: int| mid_end <= i < left_end implies #[trigger] r[i - 0] == rh[i] by {
        assert(e5[i] == head1[i]);
    }
    assert forall|k: int| 0 <= k < len1 implies {
        &&& (#[trigger] nodes[1 + k]).start == left_nodes[0 + k].start - 0
        &&& nodes[1 + k].end == left_nodes[0 + k].end - 0
        &&& nodes[1 + k].cont == left_nodes[0 + k].cont
        &&& nodes[1 + k].div == left_nodes[0 + k].div
    } by {}
    crate::model::lemma_subtree_wf_shift(
        left_nodes,
        rh,
        0,
        nodes,
        r,
        1,
        h1,
        axis,
        mid_end,
        left_end,
        0,
        bucket,
    );
    assert forall|i: int| 0 <= i < hi - left_end implies #[trigger] r[i - (-left_end)] == rt[i] by {
        assert(e5[i + left_end] == tail1[i]);
    }
    assert forall|k: int| 0 <= k < len1 implies {
        &&& (#[trigger] nodes[(1 + len1) + k]).start == right_nodes[0 + k].start - (-left_end)
        &&& nodes[(1 + len1) + k].end == right_nodes[0 + k].end - (-left_end)
        &&& nodes[(1 + len1) + k].cont == right_nodes[0 + k].cont
        &&& nodes[(1 + len1) + k].div == right_nodes[0 + k].div
    } by {
        assert(nodes[1 + left_nodes.len() + k].start == right_nodes[k].start + left_end);
    }
    crate::model::lemma_subtree_wf_shift(
        right_nodes,
        rt,
        0,
        nodes,
        r,
        1 + len1,
        h1,
        axis,
        0,
        hi - left_end,
        -left_end,
        bucket,
    );
    crate::model::lemma_subtree_layout(
        right_nodes,
        rt,
        0,
        h1,
        axis,
        0,
        hi - left_end,
        bucket,
    );
    assert(nodes[1 + left_nodes.len() as int + 0].start == right_nodes[0].start + left_end);
}

/// Appends to `nodes` the records of `more`, with their element ranges
/// moved up by `by` positions.
fn append_rebased(nodes: &mut Vec<Node>, more: &Vec<Node>, by: usize)
    requires
        forall|k: int|
            0 <= k < more@.len() ==> (#[trigger] more@[k]).start + by <= usize::MAX && more@[k].end
                + by <= usize::MAX,
    ensures
        final(nodes)@.len() == old(nodes)@.len() + more@.len(),
        final(nodes)@.subrange(0, old(nodes)@.len() as int) == old(nodes)@,
        forall|k: int|
            0 <= k < more@.len() ==> {
                &&& (#[trigger] final(nodes)@[old(nodes)@.len() + k]).start == more@[k].start + by
                &&& final(nodes)@[old(nodes)@.len() + k].end == more@[k].end + by
                &&& final(nodes)@[old(nodes)@.len() + k].cont == more@[k].cont
                &&& final(nodes)@[old(nodes)@.len() + k].div == more@[k].div
            },
{
    let ghost n0 = nodes@;
    let mut k: usize = 0;
    while k < more.len()
        invariant
            k <= more@.len(),
            nodes@.len() == n0.len() + k,
            nodes@.subrange(0, n0.len() as int) == n0,
            forall|j: int|
                0 <= j < more@.len() ==> (#[trigger] more@[j]).start + by <= usize::MAX
                    && more@[j].end + by <= usize::MAX,
            forall|j: int|
                0 <= j < k ==> {
                    &&& (#[trigger] nodes@[n0.len() + j]).start == more@[j].start + by
                    &&& nodes@[n0.len() + j].end == more@[j].end + by
                    &&& nodes@[n0.len() + j].cont == more@[j].cont
                    &&& nodes@[n0.len() + j].div == more@[j].div
                },
        decreases more@.len() - k,
    {
        let node = &more[k];
        let ghost before = nodes@;
        nodes.push(Node { start: node.start + by, end: node.end + by, cont: node.cont, div: node.div });
        proof {
            assert(nodes@.subrange(0, n0.len() as int) =~= before.subrange(0, n0.len() as int));
            assert forall|j: int| 0 <= j < k + 1 implies {
                &&& (#[trigger] nodes@[n0.len() + j]).start == more@[j].start + by
                &&& nodes@[n0.len() + j].end == more@[j].end + by
                &&& nodes@[n0.len() + j].cont == more@[j].cont
                &&& nodes@[n0.len() + j].div == more@[j].div
            } by {
                if j < k {
                    assert(nodes@[n0.len() + j] == before[n0.len() + j]);
                }
            }
        }
        k += 1;
    }
}

/// Has two workers build the two subtrees below a node, the left one
/// over the elements at `mid_end..left_end` and the right one over those
/// at `left_end..hi`, and appends their nodes to `nodes`, which holds the
/// node. What lies left and right of the divider `m` stays there.
fn fork_build<T: Aabb + Send>(
    elems: &mut [T],
    mid_end: usize,
    left_end: usize,
    hi: usize,
    parent_axis: Axis,
    m: i64,
    height: usize,
    bucket: usize,
    par_left: Parallel,
    par_right: Parallel,
    nodes: &mut Vec<Node>,
)
    requires
        1 <= height,
        mid_end <= left_end <= hi <= old(elems)@.len(),
        old(nodes)@.len() == 1,
        forall|i: int|
            mid_end <= i < left_end ==> (#[trigger] old(elems)@[i]).rect().range(parent_axis).end
                < m,
        forall|i: int|
            left_end <= i < hi ==> (#[trigger] old(elems)@[i]).rect().range(parent_axis).start > m,
    ensures
        final(nodes)@.len() == 1 + 2 * crate::model::subtree_len(height as nat),
        final(nodes)@[0] == old(nodes)@[0],
        crate::model::rearranged(old(elems)@, final(elems)@, mid_end as int, hi as int),
        forall|i: int|
            mid_end <= i < left_end ==> (#[trigger] final(elems)@[i]).rect().range(parent_axis).end
                < m,
        forall|i: int|
            left_end <= i < hi ==> (#[trigger] final(elems)@[i]).rect().range(parent_axis).start
                > m,
        crate::model::subtree_wf(
            final(nodes)@,
            crate::model::rects_of(final(elems)@),
            1,
            height as nat,
            parent_axis.other(),
            mid_end as int,
            left_end as int,
            bucket as nat,
        ),
        crate::model::subtree_wf(
            final(nodes)@,
            crate::model::rects_of(final(elems)@),
            1 + crate::model::subtree_len(height as nat) as int,
            height as nat,
            parent_axis.other(),
            left_end as int,
            hi as int,
            bucket as nat,
        ),
        final(nodes)@[1 + crate::model::subtree_len(height as nat) as int].start == left_end,
{
    let ghost h1 = height as nat;
    let ghost len1 = crate::model::subtree_len(h1) as int;
    let ghost e3 = elems@;
    let ghost n1 = nodes@;
    let (front, rest) = elems.split_at_mut(hi);
    let (head, tail) = front.split_at_mut(left_end);
    let ghost head0 = head@;
    let ghost tail0 = tail@;
    let ghost rest0 = rest@;
    let (left_nodes, right_nodes) = join_builds(
        parent_axis.next(),
        height,
        bucket,
        par_left,
        par_right,
        head,
        mid_end,
        left_end,
        tail,
        hi - left_end,
    );
    let ghost head1 = head@;
    let ghost tail1 = tail@;
    proof {
        lemma_nodes_bounded(
            left_nodes@,
            crate::model::rects_of(head1),
            h1,
            parent_axis.other(),
            mid_end as int,
            left_end as int,
            bucket as nat,
        );
        lemma_nodes_bounded(
            right_nodes@,
            crate::model::rects_of(tail1),
            h1,
            parent_axis.other(),
            0,
            hi - left_end,
            bucket as nat,
        );
    }
    append_rebased(nodes, &left_nodes, 0);
    let ghost n2 = nodes@;
    append_rebased(nodes, &right_nodes, left_end);
    proof {
        let e5 = elems@;
        assert(e3 =~= head0 + tail0 + rest0);
        assert(e5 =~= head1 + tail1 + rest0);
        lemma_fork_elems(e3, e5, head0, head1, tail0, tail1, rest0, mid_end as int, hi - left_end);
        lemma_fork_classes(
            e3,
            e5,
            head0,
            head1,
            tail0,
            tail1,
            parent_axis,
            mid_end as int,
            left_end as int,
            hi as int,
            m,
        );
        assert forall|k: int| 0 <= k < n2.len() implies #[trigger] nodes@[k] == n2[k] by {
            assert(n2[k] == nodes@.subrange(0, n2.len() as int)[k]);
        }
        assert(n1 == n2.subrange(0, 1));
        assert(n2[0] == n1[0]);
        assert forall|i: int| 0 <= i < hi - left_end implies #[trigger] e5[i + left_end]
            == tail1[i] by {}
        lemma_fork_nodes(
            nodes@,
            left_nodes@,
            right_nodes@,
            e5,
            head1,
            tail1,
            parent_axis.other(),
            h1,
            mid_end as int,
            left_end as int,
            hi as int,
            bucket as nat,
        );
    }
}

/// The element ranges of the nodes of a well-formed subtree lie within
/// the subtree's range.
proof fn lemma_nodes_bounded(
    nodes: Seq<Node>,
    r: Seq<crate::geom::Rect>,
    height: nat,
    axis: Axis,
    lo: int,
    hi: int,
    bucket: nat,
)
    requires
        crate::model::subtree_wf(nodes, r, 0, height, axis, lo, hi, bucket),
        nodes.len() == crate::model::subtree_len(height),
    ensures
        forall|k: int|
            0 <= k < nodes.len() ==> lo <= (#[trigger] nodes[k]).start <= nodes[k].end <= hi,
{
    let len = crate::model::subtree_len(height) as int;
    crate::model::lemma_nodes_contiguous(nodes, r, 0, height, axis, lo, hi, bucket);
    crate::model::lemma_starts_ordered(nodes, 0, len);
    assert forall|k: int| 0 <= k < nodes.len() implies lo <= (#[trigger] nodes[k]).start
        <= nodes[k].end <= hi by {
        if k > 0 {
            assert(nodes[0].end <= nodes[k].start);
        }
        if k < len - 1 {
            assert(nodes[k].end <= nodes[len - 1].start);
        }
    }
}

/// Builds the subtree of `height` levels over the elements at `lo..hi`, as
/// [`recurse_build`] does, and returns its nodes in pre-order. As long as
/// the policy `par` says so, the two subtrees of a node are built by two
/// workers, each on its own part of the slice.
pub fn recurse_build_par<T: Aabb + Send>(
    elems: &mut [T],
    lo: usize,
    hi: usize,
    axis: Axis,
    height: usize,
    bucket: usize,
    par: Parallel,
) -> (nodes: Vec<Node>)
    requires
        1 <= height,
        lo <= hi <= old(elems)@.len(),
    ensures
        nodes@.len() == crate::model::subtree_len(height as nat),
        crate::model::rearranged(old(elems)@, final(elems)@, lo as int, hi as int),
        crate::model::subtree_wf(
            nodes@,
            crate::model::rects_of(final(elems)@),
            0,
            height as nat,
            axis,
            lo as int,
            hi as int,
            bucket as nat,
        ),
{
    let mut nodes: Vec<Node> = Vec::new();
    let forked = match par.next() {
        ParResult::Sequential => None,
        ParResult::Parallel(a, b) => Some((a, b)),
    };
    if height == 1 || hi - lo <= bucket || forked.is_none() {
        recurse_build(elems, lo, hi, axis, height, bucket, &mut nodes);
        return nodes;
    }
    let (par_left, par_right) = forked.unwrap();
    let m = median_range(axis, elems, lo, hi);
    let ghost e1 = elems@;
    let (mid_end, left_end) = partition3(axis, elems, lo, hi, m);
    let ghost e2 = elems@;
    sort_range(axis, elems, lo, mid_end);
    let ghost e3 = elems@;
    let cont = compute_cont(axis, elems, lo, mid_end);
    nodes.push(Node { start: lo, end: mid_end, cont, div: Some(m) });
    proof {
        assert forall|i: int| mid_end <= i < left_end implies (#[trigger] e3[i]).rect().range(
            axis,
        ).end < m by {
            assert(e3[i] == e2[i]);
        }
        assert forall|i: int| left_end <= i < hi implies (#[trigger] e3[i]).rect().range(
            axis,
        ).start > m by {
            assert(e3[i] == e2[i]);
        }
    }
    fork_build(
        elems,
        mid_end,
        left_end,
        hi,
        axis,
        m,
        height - 1,
        bucket,
        par_left,
        par_right,
        &mut nodes,
    );
    proof {
        let e5 = elems@;
        let r3 = crate::model::rects_of(e3);
        let r = crate::model::rects_of(e5);
        crate::model::lemma_subtree_len_pos(height as nat);
        crate::model::lemma_rearranged_trans(old(elems)@, e1, e2, lo as int, hi as int);
        crate::model::lemma_rearranged_widen(e2, e3, lo as int, hi as int, lo as int, mid_end as int);
        crate::model::lemma_rearranged_trans(old(elems)@, e2, e3, lo as int, hi as int);
        crate::model::lemma_rearranged_widen(e3, e5, lo as int, hi as int, mid_end as int, hi as int);
        crate::model::lemma_rearranged_trans(old(elems)@, e3, e5, lo as int, hi as int);
        crate::model::lemma_rearranged_trans(e1, e2, e3, lo as int, hi as int);
        crate::model::lemma_rearranged_trans(e1, e3, e5, lo as int, hi as int);
        crate::model::lemma_median_rearranged(e1, e5, axis, lo as int, hi as int, m as int);
        // The node's own elements were last touched by the sort.
        crate::model::lemma_rearranged_forall(
            e2,
            e3,
            lo as int,
            mid_end as int,
            |t: T| t.rect().range(axis).has(m as int),
        );
        assert forall|i: int| lo <= i < mid_end implies #[trigger] r3[i] == r[i] by {
            assert(e3[i] == e5[i]);
        }
        crate::model::lemma_node_facts_frame(r3, r, axis, lo as int, mid_end as int, cont);
        assert forall|i: int| lo <= i < mid_end implies (#[trigger] r[i]).range(axis).has(
            m as int,
        ) by {
            assert(r[i] == e3[i].rect());
        }
        assert forall|i: int| mid_end <= i < left_end implies (#[trigger] r[i]).range(axis).end
            < m by {
            assert(r[i] == e5[i].rect());
        }
        assert forall|i: int| left_end <= i < hi implies (#[trigger] r[i]).range(axis).start
            > m by {
            assert(r[i] == e5[i].rect());
        }
    }
    nodes
}

/// The choices that go into a tree: the axis of the root, the number of
/// levels and how many elements a node may keep without being divided.
pub struct TreeBuilder<'a, T: Aabb> {
    axis: Axis,
    bots: &'a mut [T],
    height: usize,
    bucket: usize,
}

impl<'a, T: Aabb + Send> TreeBuilder<'a, T> {
    /// Builds the tree with the workers of the pool: the subtrees are
    /// divided among them down to the depth that fits their number. The
    /// tree obeys what [`TreeBuilder::build_seq`] ensures.
    pub fn build_par(self) -> (tree: Tree<'a, T>)
        requires
            1 <= self.levels() <= HEIGHT_LIMIT,
            crate::model::all_valid(
                crate::model::rects_of(self.target()@),
                0,
                self.target()@.len() as int,
            ),
        ensures
            tree.wf(),
            tree.axis() == self.axis(),
            tree.levels() == self.levels(),
            tree.bucket() == self.bucket(),
            tree.elements().to_multiset() == self.target()@.to_multiset(),
            final(tree.target())@ == final(self.target())@,
    {
        let ghost before = self.bots@;
        let TreeBuilder { axis, bots, height, bucket } = self;
        let n = bots.len();
        let nodes = recurse_build_par(bots, 0, n, axis, height, bucket, default_policy());
        proof {
            assert(before.subrange(0, n as int) =~= before);
            assert(bots@.subrange(0, n as int) =~= bots@);
            assert forall|i: int| 0 <= i < n implies (#[trigger] before[i]).rect().valid() by {
                assert(crate::model::rects_of(before)[i].valid());
            }
            crate::model::lemma_rearranged_forall(
                before,
                bots@,
                0,
                n as int,
                |t: T| t.rect().valid(),
            );
            let r = crate::model::rects_of(bots@);
            assert forall|i: int| 0 <= i < n implies (#[trigger] r[i]).valid() by {
                assert(r[i] == bots@[i].rect());
            }
        }
        let inner = match container_from_preorder(nodes) {
            Ok(inner) => inner,
            Err(_) => {
                proof {
                    crate::tree::lemma_subtree_len_pow2(height as nat);
                    crate::model::lemma_subtree_len_pos(height as nat);
                }
                vstd::pervasive::unreached()
            },
        };
        Tree { axis, height, bucket, inner, bots }
    }
}

impl<'a, T: Aabb> TreeBuilder<'a, T> {
    /// The axis along which the root will be divided.
    pub closed spec fn axis(self) -> Axis {
        self.axis
    }

    /// The number of levels that the tree will have.
    pub closed spec fn levels(self) -> nat {
        self.height as nat
    }

    /// The number of elements up to which a node is not divided.
    pub closed spec fn bucket(self) -> nat {
        self.bucket as nat
    }

    /// The borrowed slice.
    pub closed spec fn target(self) -> &'a mut [T] {
        self.bots
    }

    /// A builder with the default axis, the default bucket and the height
    /// that the heuristic gives for the number of elements.
    pub fn new(bots: &'a mut [T]) -> (r: TreeBuilder<'a, T>)
        ensures
            r.axis() == Axis::Y,
            r.bucket() == DEFAULT_NUMBER_ELEM_PER_NODE,
            r.levels() == crate::tree::analyze::height_heuristic(
                old(bots)@.len(),
                DEFAULT_NUMBER_ELEM_PER_NODE as nat,
                crate::tree::analyze::MAX_HEIGHT as nat,
            ),
            1 <= r.levels() <= crate::tree::analyze::MAX_HEIGHT,
            r.target()@ == old(bots)@,
            final(r.target())@ == final(bots)@,
    {
        Self::with_axis(Axis::Y, bots)
    }

    /// A builder like that of [`TreeBuilder::new`] with `axis` at the root.
    pub fn with_axis(axis: Axis, bots: &'a mut [T]) -> (r: TreeBuilder<'a, T>)
        ensures
            r.axis() == axis,
            r.bucket() == DEFAULT_NUMBER_ELEM_PER_NODE,
            r.levels() == crate::tree::analyze::height_heuristic(
                old(bots)@.len(),
                DEFAULT_NUMBER_ELEM_PER_NODE as nat,
                crate::tree::analyze::MAX_HEIGHT as nat,
            ),
            1 <= r.levels() <= crate::tree::analyze::MAX_HEIGHT,
            r.target()@ == old(bots)@,
            final(r.target())@ == final(bots)@,
    {
        let height = compute_tree_height_heuristic(bots.len(), DEFAULT_NUMBER_ELEM_PER_NODE);
        TreeBuilder { axis, bots, height, bucket: DEFAULT_NUMBER_ELEM_PER_NODE }
    }

    /// Overrides the height.
    pub fn with_height(self, height: usize) -> (r: TreeBuilder<'a, T>)
        requires
            1 <= height <= HEIGHT_LIMIT,
        ensures
            r.axis() == self.axis(),
            r.bucket() == self.bucket(),
            r.levels() == height,
            r.target()@ == self.target()@,
            final(r.target())@ == final(self.target())@,
    {
        TreeBuilder { axis: self.axis, bots: self.bots, height, bucket: self.bucket }
    }

    /// Overrides the number of elements up to which a node is not divided.
    pub fn with_bucket(self, bucket: usize) -> (r: TreeBuilder<'a, T>)
        ensures
            r.axis() == self.axis(),
            r.bucket() == bucket,
            r.levels() == self.levels(),
            r.target()@ == self.target()@,
            final(r.target())@ == final(self.target())@,
    {
        TreeBuilder { axis: self.axis, bots: self.bots, height: self.height, bucket }
    }

    /// Builds the tree on the calling thread.
    pub fn build_seq(self) -> (tree: Tree<'a, T>)
        requires
            1 <= self.levels() <= HEIGHT_LIMIT,
            crate::model::all_valid(
                crate::model::rects_of(self.target()@),
                0,
                self.target()@.len() as int,
            ),
        ensures
            tree.wf(),
            tree.axis() == self.axis(),
            tree.levels() == self.levels(),
            tree.bucket() == self.bucket(),
            tree.elements().to_multiset() == self.target()@.to_multiset(),
            final(tree.target())@ == final(self.target())@,
    {
        let ghost before = self.bots@;
        let TreeBuilder { axis, bots, height, bucket } = self;
        let mut nodes: Vec<Node> = Vec::new();
        let n = bots.len();
        recurse_build(bots, 0, n, axis, height, bucket, &mut nodes);
        proof {
            assert(before.subrange(0, n as int) =~= before);
            assert(bots@.subrange(0, n as int) =~= bots@);
            assert forall|i: int| 0 <= i < n implies (#[trigger] before[i]).rect().valid() by {
                assert(crate::model::rects_of(before)[i].valid());
            }
            crate::model::lemma_rearranged_forall(
                before,
                bots@,
                0,
                n as int,
                |t: T| t.rect().valid(),
            );
            let r = crate::model::rects_of(bots@);
            assert forall|i: int| 0 <= i < n implies (#[trigger] r[i]).valid() by {
                assert(r[i] == bots@[i].rect());
            }
        }
        let inner = match container_from_preorder(nodes) {
            Ok(inner) => inner,
            Err(_) => {
                proof {
                    crate::tree::lemma_subtree_len_pow2(height as nat);
                    crate::model::lemma_subtree_len_pos(height as nat);
                }
                vstd::pervasive::unreached()
            },
        };
        Tree { axis, height, bucket, inner, bots }
    }
}

} // verus!
