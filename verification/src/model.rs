//! The mathematical model that the contracts speak of: the rectangles of
//! a sequence of elements, index pairs, and what it means to deliver a set
//! of pairs exactly once.

use vstd::prelude::*;
use crate::geom::{Axis, Range, Rect};
use crate::node::{Aabb, Node};

verus! {

/// The rectangles of the elements, position by position.
pub open spec fn rects_of<T: Aabb>(s: Seq<T>) -> Seq<Rect> {
    Seq::new(s.len(), |i: int| s[i].rect())
}

/// The keys of the elements, position by position: which element stands
/// where.
pub open spec fn keys_of<T: Aabb>(s: Seq<T>) -> Seq<int> {
    Seq::new(s.len(), |i: int| s[i].key())
}

/// Every rectangle at a position in `lo..hi` is valid.
pub open spec fn all_valid(r: Seq<Rect>, lo: int, hi: int) -> bool {
    forall|i: int| lo <= i < hi ==> (#[trigger] r[i]).valid()
}

/// Along `axis`, the starts of the rectangles at `lo..hi` never decrease.
pub open spec fn sorted_by_start(r: Seq<Rect>, axis: Axis, lo: int, hi: int) -> bool {
    forall|i: int, j: int|
        lo <= i <= j < hi ==> (#[trigger] r[i]).range(axis).start <= (#[trigger] r[j]).range(
            axis,
        ).start
}

/// `a` comes no later than `b` in the order of elements along `axis`: it
/// starts earlier, or starts where `b` starts and ends no later.
pub open spec fn key_le(a: Rect, b: Rect, axis: Axis) -> bool {
    a.range(axis).start < b.range(axis).start || (a.range(axis).start == b.range(axis).start
        && a.range(axis).end <= b.range(axis).end)
}

/// The rectangles at `lo..hi` stand in the order of elements along
/// `axis`: by start, and by end where the starts are equal.
pub open spec fn sorted_by_key(r: Seq<Rect>, axis: Axis, lo: int, hi: int) -> bool {
    forall|i: int, j: int| lo <= i <= j < hi ==> key_le(#[trigger] r[i], #[trigger] r[j], axis)
}

/// What stands in the order of elements is sorted by start.
pub proof fn lemma_sorted_by_key(r: Seq<Rect>, axis: Axis, lo: int, hi: int)
    requires
        sorted_by_key(r, axis, lo, hi),
    ensures
        sorted_by_start(r, axis, lo, hi),
{
    assert forall|i: int, j: int| lo <= i <= j < hi implies (#[trigger] r[i]).range(axis).start <= (
    #[trigger] r[j]).range(axis).start by {
        assert(key_le(r[i], r[j], axis));
    }
}

/// `cont` is the tight span along `axis` of the rectangles at `lo..hi`:
/// absent when there are none, else from the least start to the greatest
/// end.
pub open spec fn is_cont(r: Seq<Rect>, axis: Axis, lo: int, hi: int, cont: Option<Range>) -> bool {
    match cont {
        None => lo >= hi,
        Some(c) => {
            &&& lo < hi
            &&& forall|i: int| lo <= i < hi ==> c.encloses((#[trigger] r[i]).range(axis))
            &&& exists|i: int| lo <= i < hi && (#[trigger] r[i]).range(axis).start == c.start
            &&& exists|i: int| lo <= i < hi && (#[trigger] r[i]).range(axis).end == c.end
        },
    }
}

/// A pair of positions with the smaller one first.
pub open spec fn norm(p: (int, int)) -> (int, int) {
    if p.0 <= p.1 {
        p
    } else {
        (p.1, p.0)
    }
}

/// The pairs `i < j` of positions in `lo..hi` whose rectangles intersect:
/// what brute force over that range reports.
pub open spec fn within(r: Seq<Rect>, lo: int, hi: int) -> Set<(int, int)> {
    Set::new(|p: (int, int)| lo <= p.0 < p.1 < hi && r[p.0].meets(r[p.1]))
}

/// The pairs of one position in `a_lo..a_hi` and one in `b_lo..b_hi`
/// whose rectangles intersect. The first range lies before the second.
pub open spec fn between(r: Seq<Rect>, a_lo: int, a_hi: int, b_lo: int, b_hi: int) -> Set<
    (int, int),
> {
    Set::new(
        |p: (int, int)| a_lo <= p.0 < a_hi && b_lo <= p.1 < b_hi && r[p.0].meets(r[p.1]),
    )
}

/// The pairs `i < j` of positions in `lo..hi` whose intervals along `axis`
/// intersect: what a sweep along one axis reports.
pub open spec fn within_axis(r: Seq<Rect>, axis: Axis, lo: int, hi: int) -> Set<(int, int)> {
    Set::new(
        |p: (int, int)| lo <= p.0 < p.1 < hi && r[p.0].range(axis).meets(r[p.1].range(axis)),
    )
}

/// The pairs of a position in `rx` and a position in `ry` whose intervals
/// along `axis` intersect: what a sweep of two groups along one axis
/// reports.
pub open spec fn cross_axis(rx: Seq<Rect>, ry: Seq<Rect>, axis: Axis) -> Set<(int, int)> {
    Set::new(
        |p: (int, int)|
            0 <= p.0 < rx.len() && 0 <= p.1 < ry.len() && rx[p.0].range(axis).meets(
                ry[p.1].range(axis),
            ),
    )
}

/// Every pair `i < j` of positions below `n`: what is shown when nothing
/// is asked of the rectangles.
pub open spec fn every_pair(n: int) -> Set<(int, int)> {
    Set::new(|p: (int, int)| 0 <= p.0 < p.1 < n)
}

/// `pairs` names every unordered pair of `want` once and nothing else.
pub open spec fn exact(pairs: Seq<(int, int)>, want: Set<(int, int)>) -> bool {
    &&& forall|k: int| 0 <= k < pairs.len() ==> want.contains(norm(#[trigger] pairs[k]))
    &&& forall|p: (int, int)| #[trigger]
        want.contains(p) ==> exists|k: int| 0 <= k < pairs.len() && norm(#[trigger] pairs[k]) == p
    &&& forall|k1: int, k2: int|
        0 <= k1 < k2 < pairs.len() ==> norm(#[trigger] pairs[k1]) != norm(#[trigger] pairs[k2])
}

/// `pairs` names every ordered pair of `want` once and nothing else.
pub open spec fn exact_seq(pairs: Seq<(int, int)>, want: Set<(int, int)>) -> bool {
    &&& forall|k: int| 0 <= k < pairs.len() ==> want.contains(#[trigger] pairs[k])
    &&& forall|p: (int, int)| #[trigger]
        want.contains(p) ==> exists|k: int| 0 <= k < pairs.len() && #[trigger] pairs[k] == p
    &&& forall|k1: int, k2: int|
        0 <= k1 < k2 < pairs.len() ==> #[trigger] pairs[k1] != #[trigger] pairs[k2]
}

/// Ordered pairs that differ as unordered pairs too, delivered exactly,
/// are delivered exactly as unordered pairs.
pub proof fn lemma_exact_from_seq(
    pairs: Seq<(int, int)>,
    ordered: Set<(int, int)>,
    want: Set<(int, int)>,
)
    requires
        exact_seq(pairs, ordered),
        forall|p: (int, int)| #[trigger] ordered.contains(p) ==> want.contains(norm(p)),
        forall|q: (int, int)| #[trigger]
            want.contains(q) ==> ordered.contains(q) || ordered.contains((q.1, q.0)),
        forall|q: (int, int)| #[trigger] want.contains(q) ==> q.0 <= q.1,
        forall|p: (int, int)| #[trigger]
            ordered.contains(p) ==> p.0 != p.1 && !ordered.contains((p.1, p.0)),
    ensures
        exact(pairs, want),
{
    assert forall|q: (int, int)| #[trigger] want.contains(q) implies exists|k: int|
        0 <= k < pairs.len() && norm(#[trigger] pairs[k]) == q by {
        if ordered.contains(q) {
            let k = choose|k: int| 0 <= k < pairs.len() && #[trigger] pairs[k] == q;
            assert(norm(pairs[k]) == q);
        } else {
            let f = (q.1, q.0);
            assert(ordered.contains(f));
            let k = choose|k: int| 0 <= k < pairs.len() && #[trigger] pairs[k] == f;
            assert(norm(pairs[k]) == q);
        }
    }
    assert forall|k1: int, k2: int| 0 <= k1 < k2 < pairs.len() implies norm(
        #[trigger] pairs[k1],
    ) != norm(#[trigger] pairs[k2]) by {
        let a = pairs[k1];
        let b = pairs[k2];
        assert(ordered.contains(a) && ordered.contains(b));
        if norm(a) == norm(b) {
            assert(a == b || a == (b.1, b.0));
        }
    }
}

/// Delivering one more ordered pair, not delivered before, adds it.
pub proof fn lemma_exact_seq_push(p: Seq<(int, int)>, w: Set<(int, int)>, x: (int, int))
    requires
        exact_seq(p, w),
        !w.contains(x),
    ensures
        exact_seq(p.push(x), w.insert(x)),
{
    let q = p.push(x);
    let w2 = w.insert(x);
    assert forall|k: int| 0 <= k < q.len() implies w2.contains(#[trigger] q[k]) by {
        if k < p.len() {
            assert(q[k] == p[k]);
        }
    }
    assert forall|y: (int, int)| #[trigger] w2.contains(y) implies exists|k: int|
        0 <= k < q.len() && #[trigger] q[k] == y by {
        if y == x {
            assert(q[p.len() as int] == x);
        } else {
            let k = choose|k: int| 0 <= k < p.len() && #[trigger] p[k] == y;
            assert(q[k] == y);
        }
    }
    assert forall|k1: int, k2: int| 0 <= k1 < k2 < q.len() implies #[trigger] q[k1]
        != #[trigger] q[k2] by {
        assert(q[k1] == p[k1]);
        if k2 < p.len() {
            assert(q[k2] == p[k2]);
        }
    }
}

/// The pairs of `pairs`, each with its smaller position first.
pub open spec fn normed(pairs: Seq<(int, int)>) -> Seq<(int, int)> {
    Seq::new(pairs.len(), |k: int| norm(pairs[k]))
}

/// Any two ways of delivering a set exactly deliver the same unordered
/// pairs, each as often as the other: no order of delivery, and no way of
/// finding the pairs, changes what is delivered. So what a tree delivers
/// is what brute force delivers, and what a parallel run delivers is what
/// a sequential run delivers.
pub proof fn lemma_exact_agree(pa: Seq<(int, int)>, pb: Seq<(int, int)>, want: Set<(int, int)>)
    requires
        exact(pa, want),
        exact(pb, want),
    ensures
        normed(pa).to_multiset() == normed(pb).to_multiset(),
        pa.len() == pb.len(),
{
    broadcast use vstd::multiset::group_multiset_axioms;
    broadcast use vstd::seq_lib::group_to_multiset_ensures;

    let n1 = normed(pa);
    let n2 = normed(pb);
    lemma_exact_count(pa, want);
    lemma_exact_count(pb, want);
    assert(n1.to_multiset() =~= n2.to_multiset());
    assert(n1.to_multiset().len() == n2.to_multiset().len());
}

/// In an exact delivery every pair of the set is delivered once, and no
/// other pair is delivered.
pub proof fn lemma_exact_count(pairs: Seq<(int, int)>, want: Set<(int, int)>)
    requires
        exact(pairs, want),
    ensures
        normed(pairs).no_duplicates(),
        forall|q: (int, int)| #[trigger]
            normed(pairs).to_multiset().count(q) == (if want.contains(q) {
                1nat
            } else {
                0nat
            }),
{
    broadcast use vstd::multiset::group_multiset_axioms;
    broadcast use vstd::seq_lib::group_to_multiset_ensures;

    let n = normed(pairs);
    assert forall|i: int, j: int| 0 <= i < n.len() && 0 <= j < n.len() && i != j implies n[i]
        != n[j] by {
        if i < j {
            assert(norm(pairs[i]) != norm(pairs[j]));
        } else {
            assert(norm(pairs[j]) != norm(pairs[i]));
        }
    }
    n.lemma_multiset_has_no_duplicates();
    assert forall|q: (int, int)| #[trigger]
        n.to_multiset().count(q) == (if want.contains(q) {
            1nat
        } else {
            0nat
        }) by {
        if want.contains(q) {
            let k = choose|k: int| 0 <= k < pairs.len() && norm(#[trigger] pairs[k]) == q;
            assert(n[k] == q);
            assert(n.contains(q));
        } else {
            if n.contains(q) {
                let k = choose|k: int| 0 <= k < n.len() && n[k] == q;
                assert(want.contains(norm(pairs[k])));
            }
        }
    }
}

/// What stands in `r` at the positions that `pairs` names. With the
/// rectangles of the elements for `r`, or their keys, this is what a
/// handler is shown for the pairs.
pub open spec fn at_pairs<A>(r: Seq<A>, pairs: Seq<(int, int)>) -> Seq<(A, A)> {
    Seq::new(pairs.len(), |k: int| (r[pairs[k].0], r[pairs[k].1]))
}

/// The pairs of a position in `rx` and a position in `ry` whose
/// rectangles intersect: what brute force over two groups reports.
pub open spec fn cross(rx: Seq<Rect>, ry: Seq<Rect>) -> Set<(int, int)> {
    Set::new(
        |p: (int, int)| 0 <= p.0 < rx.len() && 0 <= p.1 < ry.len() && rx[p.0].meets(ry[p.1]),
    )
}

/// What `pairs` names, the first of each pair in `rx` and the second in
/// `ry`.
pub open spec fn at_pairs2<A>(rx: Seq<A>, ry: Seq<A>, pairs: Seq<(int, int)>) -> Seq<(A, A)> {
    Seq::new(pairs.len(), |k: int| (rx[pairs[k].0], ry[pairs[k].1]))
}

/// What two lists of pairs name, one after the other, is what the first
/// list names and then what the second names.
pub proof fn lemma_at_pairs2_concat<A>(
    rx: Seq<A>,
    ry: Seq<A>,
    pa: Seq<(int, int)>,
    pb: Seq<(int, int)>,
)
    ensures
        at_pairs2(rx, ry, pa + pb) == at_pairs2(rx, ry, pa) + at_pairs2(rx, ry, pb),
{
    assert(at_pairs2(rx, ry, pa + pb) =~= at_pairs2(rx, ry, pa) + at_pairs2(rx, ry, pb));
}

/// What a list with one more pair names is what the list names and
/// then what the pair names.
pub proof fn lemma_at_pairs2_push<A>(
    rx: Seq<A>,
    ry: Seq<A>,
    p: Seq<(int, int)>,
    x: (int, int),
)
    ensures
        at_pairs2(rx, ry, p.push(x)) == at_pairs2(rx, ry, p).push((rx[x.0], ry[x.1])),
{
    assert(at_pairs2(rx, ry, p.push(x)) =~= at_pairs2(rx, ry, p).push((rx[x.0], ry[x.1])));
}

/// Delivering two disjoint sets of ordered pairs one after the other
/// delivers their union.
pub proof fn lemma_exact_seq_concat(
    pa: Seq<(int, int)>,
    w1: Set<(int, int)>,
    pb: Seq<(int, int)>,
    w2: Set<(int, int)>,
)
    requires
        exact_seq(pa, w1),
        exact_seq(pb, w2),
        w1.disjoint(w2),
    ensures
        exact_seq(pa + pb, w1.union(w2)),
{
    let p = pa + pb;
    let w = w1.union(w2);
    assert forall|k: int| 0 <= k < p.len() implies w.contains(#[trigger] p[k]) by {
        if k < pa.len() {
            assert(p[k] == pa[k]);
        } else {
            assert(p[k] == pb[k - pa.len()]);
        }
    }
    assert forall|q: (int, int)| #[trigger] w.contains(q) implies exists|k: int|
        0 <= k < p.len() && #[trigger] p[k] == q by {
        if w1.contains(q) {
            let k = choose|k: int| 0 <= k < pa.len() && #[trigger] pa[k] == q;
            assert(p[k] == pa[k]);
        } else {
            let k = choose|k: int| 0 <= k < pb.len() && #[trigger] pb[k] == q;
            assert(p[k + pa.len()] == pb[k]);
        }
    }
    assert forall|k1: int, k2: int| 0 <= k1 < k2 < p.len() implies #[trigger] p[k1]
        != #[trigger] p[k2] by {
        if k2 < pa.len() {
            assert(p[k1] == pa[k1] && p[k2] == pa[k2]);
        } else if k1 >= pa.len() {
            assert(p[k1] == pb[k1 - pa.len()] && p[k2] == pb[k2 - pa.len()]);
        } else {
            assert(p[k1] == pa[k1] && p[k2] == pb[k2 - pa.len()]);
            assert(w1.contains(pa[k1]));
            assert(w2.contains(pb[k2 - pa.len()]));
        }
    }
}

/// What two lists of pairs name, one after the other, is what the first
/// list names and then what the second names.
pub proof fn lemma_at_pairs_concat<A>(r: Seq<A>, pa: Seq<(int, int)>, pb: Seq<(int, int)>)
    ensures
        at_pairs(r, pa + pb) == at_pairs(r, pa) + at_pairs(r, pb),
{
    assert(at_pairs(r, pa + pb) =~= at_pairs(r, pa) + at_pairs(r, pb));
}

/// What a list with one more pair names is what the list names and
/// then what the pair names.
pub proof fn lemma_at_pairs_push<A>(r: Seq<A>, p: Seq<(int, int)>, x: (int, int))
    ensures
        at_pairs(r, p.push(x)) == at_pairs(r, p).push((r[x.0], r[x.1])),
{
    assert(at_pairs(r, p.push(x)) =~= at_pairs(r, p).push((r[x.0], r[x.1])));
}

/// Delivering two disjoint sets one after the other delivers their union.
pub proof fn lemma_exact_concat(
    pa: Seq<(int, int)>,
    w1: Set<(int, int)>,
    pb: Seq<(int, int)>,
    w2: Set<(int, int)>,
)
    requires
        exact(pa, w1),
        exact(pb, w2),
        w1.disjoint(w2),
    ensures
        exact(pa + pb, w1.union(w2)),
{
    let p = pa + pb;
    let w = w1.union(w2);
    assert forall|k: int| 0 <= k < p.len() implies w.contains(norm(#[trigger] p[k])) by {
        if k < pa.len() {
            assert(p[k] == pa[k]);
        } else {
            assert(p[k] == pb[k - pa.len()]);
        }
    }
    assert forall|q: (int, int)| #[trigger] w.contains(q) implies exists|k: int|
        0 <= k < p.len() && norm(#[trigger] p[k]) == q by {
        if w1.contains(q) {
            let k = choose|k: int| 0 <= k < pa.len() && norm(#[trigger] pa[k]) == q;
            assert(p[k] == pa[k]);
        } else {
            let k = choose|k: int| 0 <= k < pb.len() && norm(#[trigger] pb[k]) == q;
            assert(p[k + pa.len()] == pb[k]);
        }
    }
    assert forall|k1: int, k2: int| 0 <= k1 < k2 < p.len() implies norm(#[trigger] p[k1]) != norm(
        #[trigger] p[k2],
    ) by {
        if k2 < pa.len() {
            assert(p[k1] == pa[k1] && p[k2] == pa[k2]);
        } else if k1 >= pa.len() {
            assert(p[k1] == pb[k1 - pa.len()] && p[k2] == pb[k2 - pa.len()]);
        } else {
            assert(p[k1] == pa[k1] && p[k2] == pb[k2 - pa.len()]);
            assert(w1.contains(norm(pa[k1])));
            assert(w2.contains(norm(pb[k2 - pa.len()])));
        }
    }
}

/// Delivering one more pair, not delivered before, adds it to the set.
pub proof fn lemma_exact_push(p: Seq<(int, int)>, w: Set<(int, int)>, x: (int, int))
    requires
        exact(p, w),
        !w.contains(norm(x)),
    ensures
        exact(p.push(x), w.insert(norm(x))),
{
    let one = seq![x];
    let w2 = set![norm(x)];
    assert(one[0] == x);
    assert(exact(one, w2)) by {
        assert forall|q: (int, int)| #[trigger] w2.contains(q) implies exists|k: int|
            0 <= k < one.len() && norm(#[trigger] one[k]) == q by {
            assert(norm(one[0]) == q);
        }
    }
    lemma_exact_concat(p, w, one, w2);
    assert(p + one =~= p.push(x));
    assert(w.union(w2) =~= w.insert(norm(x)));
}

/// The pairs with `da` added to each first position and `db` to each
/// second: positions in two parts of a slice, taken to positions in the
/// slice.
pub open spec fn shifted(pairs: Seq<(int, int)>, da: int, db: int) -> Seq<(int, int)> {
    Seq::new(pairs.len(), |k: int| (pairs[k].0 + da, pairs[k].1 + db))
}

/// Pairs delivered exactly between two parts of a slice are, by their
/// positions in the slice, the pairs between the two ranges.
pub proof fn lemma_cross_to_between(
    r: Seq<Rect>,
    a_lo: int,
    a_hi: int,
    b_lo: int,
    b_hi: int,
    pairs: Seq<(int, int)>,
)
    requires
        0 <= a_lo <= a_hi <= b_lo <= b_hi <= r.len(),
        exact_seq(pairs, cross(r.subrange(a_lo, a_hi), r.subrange(b_lo, b_hi))),
    ensures
        exact(shifted(pairs, a_lo, b_lo), between(r, a_lo, a_hi, b_lo, b_hi)),
        at_pairs(r, shifted(pairs, a_lo, b_lo)) == at_pairs2(
            r.subrange(a_lo, a_hi),
            r.subrange(b_lo, b_hi),
            pairs,
        ),
{
    let ra = r.subrange(a_lo, a_hi);
    let rb = r.subrange(b_lo, b_hi);
    let sh = shifted(pairs, a_lo, b_lo);
    let want = between(r, a_lo, a_hi, b_lo, b_hi);
    assert forall|k: int| 0 <= k < sh.len() implies want.contains(norm(#[trigger] sh[k])) by {
        assert(cross(ra, rb).contains(pairs[k]));
    }
    assert forall|q: (int, int)| #[trigger] want.contains(q) implies exists|k: int|
        0 <= k < sh.len() && norm(#[trigger] sh[k]) == q by {
        let p = (q.0 - a_lo, q.1 - b_lo);
        assert(ra[p.0] == r[q.0] && rb[p.1] == r[q.1]);
        assert(cross(ra, rb).contains(p));
        let k = choose|k: int| 0 <= k < pairs.len() && #[trigger] pairs[k] == p;
        assert(norm(sh[k]) == q);
    }
    assert forall|k1: int, k2: int| 0 <= k1 < k2 < sh.len() implies norm(#[trigger] sh[k1])
        != norm(#[trigger] sh[k2]) by {
        assert(cross(ra, rb).contains(pairs[k1]));
        assert(cross(ra, rb).contains(pairs[k2]));
        assert(pairs[k1] != pairs[k2]);
    }
    assert(at_pairs(r, sh) =~= at_pairs2(ra, rb, pairs)) by {
        assert forall|k: int| 0 <= k < pairs.len() implies at_pairs(r, sh)[k] == at_pairs2(
            ra,
            rb,
            pairs,
        )[k] by {
            assert(cross(ra, rb).contains(pairs[k]));
        }
    }
}

/// Pairs delivered exactly within a part of a slice are, by their
/// positions in the slice, the pairs within the range.
pub proof fn lemma_within_shift(r: Seq<Rect>, lo: int, hi: int, pairs: Seq<(int, int)>)
    requires
        0 <= lo <= hi <= r.len(),
        exact(pairs, within(r.subrange(lo, hi), 0, hi - lo)),
    ensures
        exact(shifted(pairs, lo, lo), within(r, lo, hi)),
        at_pairs(r, shifted(pairs, lo, lo)) == at_pairs(r.subrange(lo, hi), pairs),
{
    let rs = r.subrange(lo, hi);
    let sh = shifted(pairs, lo, lo);
    let want0 = within(rs, 0, hi - lo);
    let want = within(r, lo, hi);
    assert forall|k: int| 0 <= k < sh.len() implies want.contains(norm(#[trigger] sh[k])) by {
        assert(want0.contains(norm(pairs[k])));
    }
    assert forall|q: (int, int)| #[trigger] want.contains(q) implies exists|k: int|
        0 <= k < sh.len() && norm(#[trigger] sh[k]) == q by {
        let p = (q.0 - lo, q.1 - lo);
        assert(rs[p.0] == r[q.0] && rs[p.1] == r[q.1]);
        assert(want0.contains(p));
        let k = choose|k: int| 0 <= k < pairs.len() && norm(#[trigger] pairs[k]) == p;
        assert(norm(sh[k]) == q);
    }
    assert forall|k1: int, k2: int| 0 <= k1 < k2 < sh.len() implies norm(#[trigger] sh[k1])
        != norm(#[trigger] sh[k2]) by {
        assert(norm(pairs[k1]) != norm(pairs[k2]));
    }
    assert(at_pairs(r, sh) =~= at_pairs(rs, pairs)) by {
        assert forall|k: int| 0 <= k < pairs.len() implies at_pairs(r, sh)[k] == at_pairs(
            rs,
            pairs,
        )[k] by {
            assert(want0.contains(norm(pairs[k])));
        }
    }
}

/// The keys of a part of a slice are that part of the slice's keys.
pub proof fn lemma_keys_of_subrange<T: Aabb>(s: Seq<T>, lo: int, hi: int)
    requires
        0 <= lo <= hi <= s.len(),
    ensures
        keys_of(s.subrange(lo, hi)) == keys_of(s).subrange(lo, hi),
{
    assert(keys_of(s.subrange(lo, hi)) =~= keys_of(s).subrange(lo, hi));
}

/// The rectangles of a part of a slice are that part of the slice's
/// rectangles.
pub proof fn lemma_rects_of_subrange<T: Aabb>(s: Seq<T>, lo: int, hi: int)
    requires
        0 <= lo <= hi <= s.len(),
    ensures
        rects_of(s.subrange(lo, hi)) == rects_of(s).subrange(lo, hi),
{
    assert(rects_of(s.subrange(lo, hi)) =~= rects_of(s).subrange(lo, hi));
}

/// Replacing two parts of a slice by elements with the same rectangles
/// leaves the rectangles of the slice as they were.
pub proof fn lemma_splice_rects<T: Aabb>(
    before: Seq<T>,
    after: Seq<T>,
    a_lo: int,
    a_hi: int,
    b_lo: int,
    b_hi: int,
    first: Seq<T>,
    second: Seq<T>,
)
    requires
        0 <= a_lo <= a_hi <= b_lo <= b_hi <= before.len(),
        after == before.subrange(0, a_lo) + first + before.subrange(a_hi, b_lo) + second
            + before.subrange(b_hi, before.len() as int),
        rects_of(first) == rects_of(before.subrange(a_lo, a_hi)),
        rects_of(second) == rects_of(before.subrange(b_lo, b_hi)),
    ensures
        rects_of(after) == rects_of(before),
{
    let ra = rects_of(first);
    let rb = rects_of(second);
    assert(ra.len() == a_hi - a_lo);
    assert(rb.len() == b_hi - b_lo);
    assert(first.len() == a_hi - a_lo);
    assert(second.len() == b_hi - b_lo);
    assert(after.len() == before.len());
    assert forall|i: int| 0 <= i < before.len() implies rects_of(after)[i] == rects_of(
        before,
    )[i] by {
        if a_lo <= i < a_hi {
            assert(after[i] == first[i - a_lo]);
            assert(ra[i - a_lo] == first[i - a_lo].rect());
            assert(rects_of(before.subrange(a_lo, a_hi))[i - a_lo] == before[i].rect());
        } else if b_lo <= i < b_hi {
            assert(after[i] == second[i - b_lo]);
            assert(rb[i - b_lo] == second[i - b_lo].rect());
            assert(rects_of(before.subrange(b_lo, b_hi))[i - b_lo] == before[i].rect());
        } else {
            assert(after[i] == before[i]);
        }
    }
    assert(rects_of(after) =~= rects_of(before));
}

/// Replacing two parts of a slice by elements with the same keys leaves
/// the keys of the slice as they were.
pub proof fn lemma_splice_keys<T: Aabb>(
    before: Seq<T>,
    after: Seq<T>,
    a_lo: int,
    a_hi: int,
    b_lo: int,
    b_hi: int,
    first: Seq<T>,
    second: Seq<T>,
)
    requires
        0 <= a_lo <= a_hi <= b_lo <= b_hi <= before.len(),
        after == before.subrange(0, a_lo) + first + before.subrange(a_hi, b_lo) + second
            + before.subrange(b_hi, before.len() as int),
        keys_of(first) == keys_of(before.subrange(a_lo, a_hi)),
        keys_of(second) == keys_of(before.subrange(b_lo, b_hi)),
    ensures
        keys_of(after) == keys_of(before),
{
    let ka = keys_of(first);
    let kb = keys_of(second);
    assert(ka.len() == a_hi - a_lo);
    assert(kb.len() == b_hi - b_lo);
    assert(first.len() == a_hi - a_lo);
    assert(second.len() == b_hi - b_lo);
    assert(after.len() == before.len());
    assert forall|i: int| 0 <= i < before.len() implies keys_of(after)[i] == keys_of(
        before,
    )[i] by {
        if a_lo <= i < a_hi {
            assert(after[i] == first[i - a_lo]);
            assert(ka[i - a_lo] == first[i - a_lo].key());
            assert(keys_of(before.subrange(a_lo, a_hi))[i - a_lo] == before[i].key());
        } else if b_lo <= i < b_hi {
            assert(after[i] == second[i - b_lo]);
            assert(kb[i - b_lo] == second[i - b_lo].key());
            assert(keys_of(before.subrange(b_lo, b_hi))[i - b_lo] == before[i].key());
        } else {
            assert(after[i] == before[i]);
        }
    }
    assert(keys_of(after) =~= keys_of(before));
}

/// Replacing the part of a slice before a cut and the part after it by
/// elements with the same keys leaves the keys of the slice as they were.
pub proof fn lemma_join_keys<T: Aabb>(before: Seq<T>, head: Seq<T>, tail: Seq<T>, cut: int)
    requires
        0 <= cut <= before.len(),
        keys_of(head) == keys_of(before.subrange(0, cut)),
        keys_of(tail) == keys_of(before.subrange(cut, before.len() as int)),
    ensures
        keys_of(head + tail) == keys_of(before),
{
    let kh = keys_of(head);
    let kt = keys_of(tail);
    assert(head.len() == kh.len() == cut);
    assert(tail.len() == kt.len() == before.len() - cut);
    assert forall|i: int| 0 <= i < before.len() implies keys_of(head + tail)[i] == keys_of(
        before,
    )[i] by {
        if i < cut {
            assert(kh[i] == head[i].key());
            assert(keys_of(before.subrange(0, cut))[i] == before[i].key());
        } else {
            assert(kt[i - cut] == tail[i - cut].key());
            assert(keys_of(before.subrange(cut, before.len() as int))[i - cut] == before[i].key());
        }
    }
    assert(keys_of(head + tail) =~= keys_of(before));
}

/// Replacing the part of a slice before a cut and the part after it by
/// elements with the same rectangles leaves the rectangles of the slice as
/// they were.
pub proof fn lemma_join_rects<T: Aabb>(before: Seq<T>, head: Seq<T>, tail: Seq<T>, cut: int)
    requires
        0 <= cut <= before.len(),
        rects_of(head) == rects_of(before.subrange(0, cut)),
        rects_of(tail) == rects_of(before.subrange(cut, before.len() as int)),
    ensures
        rects_of(head + tail) == rects_of(before),
{
    let rh = rects_of(head);
    let rt = rects_of(tail);
    assert(head.len() == rh.len() == cut);
    assert(tail.len() == rt.len() == before.len() - cut);
    assert forall|i: int| 0 <= i < before.len() implies rects_of(head + tail)[i] == rects_of(
        before,
    )[i] by {
        if i < cut {
            assert(rh[i] == head[i].rect());
            assert(rects_of(before.subrange(0, cut))[i] == before[i].rect());
        } else {
            assert(rt[i - cut] == tail[i - cut].rect());
            assert(rects_of(before.subrange(cut, before.len() as int))[i - cut] == before[i].rect());
        }
    }
    assert(rects_of(head + tail) =~= rects_of(before));
}

/// The pairs between a range and the union of three adjacent ranges after
/// it are those between it and each of the three.
pub proof fn lemma_between_split3(
    r: Seq<Rect>,
    a_lo: int,
    a_hi: int,
    lo: int,
    e1: int,
    e2: int,
    hi: int,
)
    requires
        lo <= e1 <= e2 <= hi,
    ensures
        between(r, a_lo, a_hi, lo, e1).disjoint(between(r, a_lo, a_hi, e1, e2)),
        between(r, a_lo, a_hi, lo, e1).union(between(r, a_lo, a_hi, e1, e2)).disjoint(
            between(r, a_lo, a_hi, e2, hi),
        ),
        between(r, a_lo, a_hi, lo, e1).union(between(r, a_lo, a_hi, e1, e2)).union(
            between(r, a_lo, a_hi, e2, hi),
        ) == between(r, a_lo, a_hi, lo, hi),
{
    assert(between(r, a_lo, a_hi, lo, e1).union(between(r, a_lo, a_hi, e1, e2)).union(
        between(r, a_lo, a_hi, e2, hi),
    ) =~= between(r, a_lo, a_hi, lo, hi));
}

/// The pairs within a range that is cut in three are those within each
/// part and those between any two parts.
pub proof fn lemma_within_split3(r: Seq<Rect>, lo: int, e1: int, e2: int, hi: int)
    requires
        lo <= e1 <= e2 <= hi,
    ensures
        within(r, lo, hi) == within(r, lo, e1).union(between(r, lo, e1, e1, e2)).union(
            between(r, lo, e1, e2, hi),
        ).union(within(r, e1, e2)).union(within(r, e2, hi)).union(between(r, e1, e2, e2, hi)),
        within(r, lo, e1).disjoint(between(r, lo, e1, e1, e2)),
        within(r, lo, e1).union(between(r, lo, e1, e1, e2)).disjoint(between(r, lo, e1, e2, hi)),
        within(r, lo, e1).union(between(r, lo, e1, e1, e2)).union(
            between(r, lo, e1, e2, hi),
        ).disjoint(within(r, e1, e2)),
        within(r, lo, e1).union(between(r, lo, e1, e1, e2)).union(
            between(r, lo, e1, e2, hi),
        ).union(within(r, e1, e2)).disjoint(within(r, e2, hi)),
{
    assert(within(r, lo, hi) =~= within(r, lo, e1).union(between(r, lo, e1, e1, e2)).union(
        between(r, lo, e1, e2, hi),
    ).union(within(r, e1, e2)).union(within(r, e2, hi)).union(between(r, e1, e2, e2, hi)));
}

/// Delivering exactly the pairs within the first part of a range cut in
/// three, those between the first part and the second, those between the
/// first and the third, those within the second and those within the
/// third, one list after the other, delivers exactly the pairs within the
/// range, where nothing of the second part meets anything of the third.
pub proof fn lemma_exact_in_turn(
    r: Seq<Rect>,
    lo: int,
    e1: int,
    e2: int,
    hi: int,
    here: Seq<(int, int)>,
    below_left: Seq<(int, int)>,
    below_right: Seq<(int, int)>,
    in_left: Seq<(int, int)>,
    in_right: Seq<(int, int)>,
)
    requires
        lo <= e1 <= e2 <= hi,
        exact(here, within(r, lo, e1)),
        exact(below_left, between(r, lo, e1, e1, e2)),
        exact(below_right, between(r, lo, e1, e2, hi)),
        exact(in_left, within(r, e1, e2)),
        exact(in_right, within(r, e2, hi)),
        between(r, e1, e2, e2, hi) == Set::<(int, int)>::empty(),
    ensures
        exact(here + below_left + below_right + in_left + in_right, within(r, lo, hi)),
{
    lemma_within_split3(r, lo, e1, e2, hi);
    let w1 = within(r, lo, e1);
    let w2 = between(r, lo, e1, e1, e2);
    let w3 = between(r, lo, e1, e2, hi);
    let w4 = within(r, e1, e2);
    let w5 = within(r, e2, hi);
    lemma_exact_concat(here, w1, below_left, w2);
    lemma_exact_concat(here + below_left, w1.union(w2), below_right, w3);
    lemma_exact_concat(here + below_left + below_right, w1.union(w2).union(w3), in_left, w4);
    lemma_exact_concat(
        here + below_left + below_right + in_left,
        w1.union(w2).union(w3).union(w4),
        in_right,
        w5,
    );
    assert(w1.union(w2).union(w3).union(w4).union(w5) =~= within(r, lo, hi));
}

/// A record that grew by what three lists of pairs name, or by the first
/// of them alone where the other two are empty, and then by what two more
/// lists name, grew by what the five lists name, one after the other.
pub proof fn lemma_shown_in_turn<A>(
    s: Seq<A>,
    before: Seq<(A, A)>,
    mid: Seq<(A, A)>,
    after: Seq<(A, A)>,
    entered: bool,
    here: Seq<(int, int)>,
    below_left: Seq<(int, int)>,
    below_right: Seq<(int, int)>,
    in_left: Seq<(int, int)>,
    in_right: Seq<(int, int)>,
)
    requires
        entered ==> mid == before + at_pairs(s, here) + at_pairs(s, below_left) + at_pairs(
            s,
            below_right,
        ),
        !entered ==> mid == before + at_pairs(s, here) && below_left.len() == 0
            && below_right.len() == 0,
        after == mid + at_pairs(s, in_left) + at_pairs(s, in_right),
    ensures
        after == before + at_pairs(s, here + below_left + below_right + in_left + in_right),
{
    lemma_at_pairs_concat(s, here, below_left);
    lemma_at_pairs_concat(s, here + below_left, below_right);
    lemma_at_pairs_concat(s, here + below_left + below_right, in_left);
    lemma_at_pairs_concat(s, here + below_left + below_right + in_left, in_right);
    assert(after =~= before + at_pairs(
        s,
        here + below_left + below_right + in_left + in_right,
    ));
}

/// Delivering exactly the pairs between a range and the first part of a
/// later range cut in three, those between it and the second part and
/// those between it and the third, one list after the other, delivers
/// exactly the pairs between the range and the later range.
pub proof fn lemma_exact_below(
    r: Seq<Rect>,
    a_lo: int,
    a_hi: int,
    lo: int,
    e1: int,
    e2: int,
    hi: int,
    here: Seq<(int, int)>,
    in_left: Seq<(int, int)>,
    in_right: Seq<(int, int)>,
)
    requires
        a_lo <= a_hi <= lo <= e1 <= e2 <= hi,
        exact(here, between(r, a_lo, a_hi, lo, e1)),
        exact(in_left, between(r, a_lo, a_hi, e1, e2)),
        exact(in_right, between(r, a_lo, a_hi, e2, hi)),
    ensures
        exact(here + in_left + in_right, between(r, a_lo, a_hi, lo, hi)),
{
    lemma_between_split3(r, a_lo, a_hi, lo, e1, e2, hi);
    lemma_exact_concat(
        here,
        between(r, a_lo, a_hi, lo, e1),
        in_left,
        between(r, a_lo, a_hi, e1, e2),
    );
    lemma_exact_concat(
        here + in_left,
        between(r, a_lo, a_hi, lo, e1).union(between(r, a_lo, a_hi, e1, e2)),
        in_right,
        between(r, a_lo, a_hi, e2, hi),
    );
}

/// A record that grew by what a list of pairs names, then by what a
/// second list names unless that list was left out, and then by what a
/// third names unless it was left out, grew by what the three lists name,
/// one after the other. A list that was left out is empty.
pub proof fn lemma_shown_below<A>(
    s: Seq<A>,
    before: Seq<(A, A)>,
    after_left: Seq<(A, A)>,
    after: Seq<(A, A)>,
    went_left: bool,
    went_right: bool,
    here: Seq<(int, int)>,
    in_left: Seq<(int, int)>,
    in_right: Seq<(int, int)>,
)
    requires
        went_left ==> after_left == before + at_pairs(s, here) + at_pairs(s, in_left),
        !went_left ==> after_left == before + at_pairs(s, here) && in_left.len() == 0,
        went_right ==> after == after_left + at_pairs(s, in_right),
        !went_right ==> after == after_left && in_right.len() == 0,
    ensures
        after == before + at_pairs(s, here + in_left + in_right),
{
    lemma_at_pairs_concat(s, here, in_left);
    lemma_at_pairs_concat(s, here + in_left, in_right);
    assert(after =~= before + at_pairs(s, here + in_left + in_right));
}

/// `b` holds the items of `a`: rearranged among the positions `lo..hi`,
/// each as often as before, and untouched elsewhere.
pub open spec fn rearranged<T>(a: Seq<T>, b: Seq<T>, lo: int, hi: int) -> bool {
    &&& a.len() == b.len()
    &&& 0 <= lo <= hi <= a.len()
    &&& forall|i: int| 0 <= i < a.len() && !(lo <= i < hi) ==> #[trigger] a[i] == b[i]
    &&& a.subrange(lo, hi).to_multiset() == b.subrange(lo, hi).to_multiset()
}

/// Leaving a sequence as it is rearranges it.
pub proof fn lemma_rearranged_refl<T>(a: Seq<T>, lo: int, hi: int)
    requires
        0 <= lo <= hi <= a.len(),
    ensures
        rearranged(a, a, lo, hi),
{
}

/// Rearranging twice within a range is rearranging within it.
pub proof fn lemma_rearranged_trans<T>(a: Seq<T>, b: Seq<T>, c: Seq<T>, lo: int, hi: int)
    requires
        rearranged(a, b, lo, hi),
        rearranged(b, c, lo, hi),
    ensures
        rearranged(a, c, lo, hi),
{
}

/// Rearranging the front part of a slice and the rest of it, each within a
/// range of its own, rearranges the slice within the range that spans
/// both.
pub proof fn lemma_rearranged_concat<T>(
    a1: Seq<T>,
    b1: Seq<T>,
    a2: Seq<T>,
    b2: Seq<T>,
    lo1: int,
    hi2: int,
)
    requires
        rearranged(a1, b1, lo1, a1.len() as int),
        rearranged(a2, b2, 0, hi2),
    ensures
        rearranged(a1 + a2, b1 + b2, lo1, a1.len() + hi2),
{
    let n1 = a1.len() as int;
    let a = a1 + a2;
    let b = b1 + b2;
    let mid = b1 + a2;
    assert(rearranged(a, mid, lo1, n1)) by {
        assert(a.subrange(lo1, n1) =~= a1.subrange(lo1, n1));
        assert(mid.subrange(lo1, n1) =~= b1.subrange(lo1, n1));
        assert forall|i: int| 0 <= i < a.len() && !(lo1 <= i < n1) implies #[trigger] a[i]
            == mid[i] by {
            if i < n1 {
                assert(a1[i] == b1[i]);
            }
        }
    }
    assert(rearranged(mid, b, n1, n1 + hi2)) by {
        assert(mid.subrange(n1, n1 + hi2) =~= a2.subrange(0, hi2));
        assert(b.subrange(n1, n1 + hi2) =~= b2.subrange(0, hi2));
        assert forall|i: int| 0 <= i < mid.len() && !(n1 <= i < n1 + hi2) implies #[trigger] mid[i]
            == b[i] by {
            if i >= n1 {
                assert(a2[i - n1] == b2[i - n1]);
            }
        }
    }
    lemma_rearranged_widen(a, mid, lo1, n1 + hi2, lo1, n1);
    lemma_rearranged_widen(mid, b, lo1, n1 + hi2, n1, n1 + hi2);
    lemma_rearranged_trans(a, mid, b, lo1, n1 + hi2);
}

/// Rearranging within a part of a range rearranges within the range.
pub proof fn lemma_rearranged_widen<T>(a: Seq<T>, b: Seq<T>, lo: int, hi: int, lo2: int, hi2: int)
    requires
        rearranged(a, b, lo2, hi2),
        0 <= lo <= lo2,
        hi2 <= hi <= a.len(),
    ensures
        rearranged(a, b, lo, hi),
{
    let a1 = a.subrange(lo, lo2);
    let a2 = a.subrange(lo2, hi2);
    let a3 = a.subrange(hi2, hi);
    let b1 = b.subrange(lo, lo2);
    let b2 = b.subrange(lo2, hi2);
    let b3 = b.subrange(hi2, hi);
    assert(a1 =~= b1);
    assert(a3 =~= b3);
    assert(a.subrange(lo, hi) =~= (a1 + a2) + a3);
    assert(b.subrange(lo, hi) =~= (b1 + b2) + b3);
    vstd::seq_lib::lemma_multiset_commutative(a1, a2);
    vstd::seq_lib::lemma_multiset_commutative(a1 + a2, a3);
    vstd::seq_lib::lemma_multiset_commutative(b1, b2);
    vstd::seq_lib::lemma_multiset_commutative(b1 + b2, b3);
}

/// What holds of every item at `lo..hi` holds of them however they are
/// rearranged there.
pub proof fn lemma_rearranged_forall<T>(
    a: Seq<T>,
    b: Seq<T>,
    lo: int,
    hi: int,
    p: spec_fn(T) -> bool,
)
    requires
        rearranged(a, b, lo, hi),
        forall|i: int| lo <= i < hi ==> p(#[trigger] a[i]),
    ensures
        forall|i: int| lo <= i < hi ==> p(#[trigger] b[i]),
{
    broadcast use vstd::multiset::group_multiset_axioms;
    broadcast use vstd::seq_lib::group_to_multiset_ensures;

    let sa = a.subrange(lo, hi);
    let sb = b.subrange(lo, hi);
    assert forall|i: int| lo <= i < hi implies p(#[trigger] b[i]) by {
        assert(sb[i - lo] == b[i]);
        assert(sb.contains(b[i]));
        assert(sb.to_multiset().count(b[i]) > 0);
        assert(sa.contains(b[i]));
        let k = choose|k: int| 0 <= k < sa.len() && sa[k] == b[i];
        assert(sa[k] == a[k + lo]);
    }
}

/// Exchanging the items at two positions of a range rearranges the range.
pub proof fn lemma_rearranged_swap<T>(a: Seq<T>, lo: int, hi: int, i: int, j: int)
    requires
        0 <= lo <= i < hi <= a.len(),
        lo <= j < hi,
    ensures
        rearranged(a, a.update(i, a[j]).update(j, a[i]), lo, hi),
{
    broadcast use vstd::multiset::group_multiset_axioms;
    broadcast use vstd::seq_lib::group_to_multiset_ensures;

    let b = a.update(i, a[j]).update(j, a[i]);
    let sa = a.subrange(lo, hi);
    let sb = b.subrange(lo, hi);
    let mid = sa.update(i - lo, sa[j - lo]);
    assert(sb =~= mid.update(j - lo, sa[i - lo]));
    vstd::seq_lib::to_multiset_update(sa, i - lo, sa[j - lo]);
    vstd::seq_lib::to_multiset_update(mid, j - lo, sa[i - lo]);
    assert(sb.to_multiset() =~= sa.to_multiset());
}

/// The number of items of `s` of which `p` holds.
pub open spec fn count_if<T>(s: Seq<T>, p: spec_fn(T) -> bool) -> nat
    decreases s.len(),
{
    if s.len() == 0 {
        0
    } else {
        count_if(s.drop_last(), p) + (if p(s.last()) {
            1nat
        } else {
            0nat
        })
    }
}

/// Counting looks at the items and not at their order.
pub proof fn lemma_count_if_multiset<T>(s: Seq<T>, p: spec_fn(T) -> bool)
    ensures
        count_if(s, p) == s.to_multiset().filter(p).len(),
    decreases s.len(),
{
    broadcast use vstd::multiset::group_multiset_axioms;
    broadcast use vstd::seq_lib::group_to_multiset_ensures;

    if s.len() == 0 {
        assert(s.to_multiset().filter(p) =~= vstd::multiset::Multiset::<T>::empty());
    } else {
        let init = s.drop_last();
        let x = s.last();
        lemma_count_if_multiset(init, p);
        assert(init.push(x) =~= s);
        let m = init.to_multiset();
        assert(s.to_multiset() =~= m.insert(x));
        if p(x) {
            assert(m.insert(x).filter(p) =~= m.filter(p).insert(x));
        } else {
            assert(m.insert(x).filter(p) =~= m.filter(p));
        }
    }
}

/// Counting over the rectangles of elements is counting over the elements.
pub proof fn lemma_count_if_rects<T: Aabb>(s: Seq<T>, p: spec_fn(Rect) -> bool)
    ensures
        count_if(rects_of(s), p) == count_if(s, |t: T| p(t.rect())),
    decreases s.len(),
{
    if s.len() > 0 {
        lemma_count_if_rects(s.drop_last(), p);
        assert(rects_of(s).drop_last() =~= rects_of(s.drop_last()));
        assert(rects_of(s).last() == s.last().rect());
    }
}

/// `d` is the median start along `axis` of the rectangles at `lo..hi`:
/// in order of start, the rectangle at the middle position, that is at
/// position `(hi - lo) / 2` counted from 0, starts at `d`. So at most that
/// many rectangles start before `d`, and more than that many start at or
/// before it.
pub open spec fn is_median_start(r: Seq<Rect>, axis: Axis, lo: int, hi: int, d: int) -> bool {
    &&& count_if(r.subrange(lo, hi), |x: Rect| x.range(axis).start < d) <= (hi - lo) / 2
    &&& count_if(r.subrange(lo, hi), |x: Rect| x.range(axis).start <= d) > (hi - lo) / 2
}

/// Rearranging the elements at `lo..hi` keeps their median start.
pub proof fn lemma_median_rearranged<T: Aabb>(
    a: Seq<T>,
    b: Seq<T>,
    axis: Axis,
    lo: int,
    hi: int,
    d: int,
)
    requires
        rearranged(a, b, lo, hi),
        is_median_start(rects_of(a), axis, lo, hi, d),
    ensures
        is_median_start(rects_of(b), axis, lo, hi, d),
{
    let pa = |x: Rect| x.range(axis).start < d;
    let pb = |x: Rect| x.range(axis).start <= d;
    let sa = a.subrange(lo, hi);
    let sb = b.subrange(lo, hi);
    lemma_rects_of_subrange(a, lo, hi);
    lemma_rects_of_subrange(b, lo, hi);
    lemma_count_if_rects(sa, pa);
    lemma_count_if_rects(sa, pb);
    lemma_count_if_rects(sb, pa);
    lemma_count_if_rects(sb, pb);
    lemma_count_if_multiset(sa, |t: T| pa(t.rect()));
    lemma_count_if_multiset(sa, |t: T| pb(t.rect()));
    lemma_count_if_multiset(sb, |t: T| pa(t.rect()));
    lemma_count_if_multiset(sb, |t: T| pb(t.rect()));
}

/// Among the first `k` items of `s`, at most `idx` satisfy `p` if no item
/// from position `idx` on does.
pub proof fn lemma_count_if_at_most<T>(s: Seq<T>, p: spec_fn(T) -> bool, idx: int, k: int)
    requires
        0 <= idx,
        0 <= k <= s.len(),
        forall|i: int| idx <= i < s.len() ==> !p(#[trigger] s[i]),
    ensures
        count_if(s.subrange(0, k), p) <= idx,
        count_if(s.subrange(0, k), p) <= k,
    decreases k,
{
    if k > 0 {
        lemma_count_if_at_most(s, p, idx, k - 1);
        assert(s.subrange(0, k).drop_last() =~= s.subrange(0, k - 1));
        assert(s.subrange(0, k).last() == s[k - 1]);
    }
}

/// Among the first `k` items of `s`, all of the first `idx` satisfy `p` if
/// every item before position `idx` does.
pub proof fn lemma_count_if_at_least<T>(s: Seq<T>, p: spec_fn(T) -> bool, idx: int, k: int)
    requires
        0 <= idx <= s.len(),
        0 <= k <= s.len(),
        forall|i: int| 0 <= i < idx ==> p(#[trigger] s[i]),
    ensures
        count_if(s.subrange(0, k), p) >= (if k <= idx {
            k
        } else {
            idx
        }),
    decreases k,
{
    if k > 0 {
        lemma_count_if_at_least(s, p, idx, k - 1);
        assert(s.subrange(0, k).drop_last() =~= s.subrange(0, k - 1));
        assert(s.subrange(0, k).last() == s[k - 1]);
    }
}

/// The number of nodes of a complete tree with `height` levels.
pub open spec fn subtree_len(height: nat) -> nat
    decreases height,
{
    if height == 0 {
        0
    } else {
        2 * subtree_len((height - 1) as nat) + 1
    }
}

/// The nodes from position `at` on are, in pre-order, a well-formed tree of
/// `height` levels over the rectangles at `lo..hi`, with `axis` at its
/// root and built with `bucket`:
/// - the root holds the elements at `lo..end` for its `end`, sorted by
///   start along `axis`, and by end where starts are equal, and `cont` is
///   their tight span;
/// - a leaf holds all of `lo..hi` and has no divider;
/// - an inner node has no divider exactly when its subtree holds at most
///   `bucket` elements; it then holds them all, and everything below it is
///   empty;
/// - the divider `d` of an inner node is the median start of the elements
///   of its subtree; the node holds those whose interval along `axis`
///   contains `d`; the left subtree follows it in the slice and holds
///   those that end before `d`; the right subtree comes last and holds
///   those that start after `d`.
pub open spec fn subtree_wf(
    nodes: Seq<Node>,
    r: Seq<Rect>,
    at: int,
    height: nat,
    axis: Axis,
    lo: int,
    hi: int,
    bucket: nat,
) -> bool
    decreases height,
{
    if height == 0 {
        false
    } else {
        let n = nodes[at];
        let right = at + 1 + subtree_len((height - 1) as nat);
        &&& 0 <= at
        &&& at + subtree_len(height) <= nodes.len()
        &&& 0 <= lo <= hi <= r.len()
        &&& n.start == lo
        &&& lo <= n.end <= hi
        &&& sorted_by_key(r, axis, lo, n.end as int)
        &&& is_cont(r, axis, lo, n.end as int, n.cont)
        &&& if height == 1 {
            n.end == hi && n.div is None
        } else {
            let mid = nodes[right].start as int;
            &&& n.end <= mid <= hi
            &&& subtree_wf(
                nodes,
                r,
                at + 1,
                (height - 1) as nat,
                axis.other(),
                n.end as int,
                mid,
                bucket,
            )
            &&& subtree_wf(nodes, r, right, (height - 1) as nat, axis.other(), mid, hi, bucket)
            &&& (n.div is None <==> hi - lo <= bucket)
            &&& match n.div {
                None => n.end == hi,
                Some(d) => {
                    &&& is_median_start(r, axis, lo, hi, d as int)
                    &&& forall|i: int| lo <= i < n.end ==> (#[trigger] r[i]).range(axis).has(d as int)
                    &&& forall|i: int| n.end <= i < mid ==> (#[trigger] r[i]).range(axis).end < d
                    &&& forall|i: int| mid <= i < hi ==> (#[trigger] r[i]).range(axis).start > d
                },
            }
        }
    }
}

/// What a node says of its own elements depends on the rectangles at
/// their positions only.
pub proof fn lemma_node_facts_frame(
    r1: Seq<Rect>,
    r2: Seq<Rect>,
    axis: Axis,
    lo: int,
    end: int,
    cont: Option<Range>,
)
    requires
        sorted_by_key(r1, axis, lo, end),
        is_cont(r1, axis, lo, end, cont),
        forall|i: int| lo <= i < end ==> #[trigger] r1[i] == r2[i],
    ensures
        sorted_by_key(r2, axis, lo, end),
        is_cont(r2, axis, lo, end, cont),
{
    if let Some(c) = cont {
        let i = choose|i: int| lo <= i < end && (#[trigger] r1[i]).range(axis).start == c.start;
        assert(r2[i].range(axis).start == c.start);
        let j = choose|j: int| lo <= j < end && (#[trigger] r1[j]).range(axis).end == c.end;
        assert(r2[j].range(axis).end == c.end);
        assert forall|i: int| lo <= i < end implies c.encloses((#[trigger] r2[i]).range(axis)) by {
            assert(r1[i] == r2[i]);
        }
    }
    assert forall|i: int, j: int| lo <= i <= j < end implies key_le(
        #[trigger] r2[i],
        #[trigger] r2[j],
        axis,
    ) by {
        assert(r1[i] == r2[i] && r1[j] == r2[j]);
        assert(key_le(r1[i], r1[j], axis));
    }
}

/// A tree with a level has one node more than two trees with one level
/// less.
pub proof fn lemma_subtree_len_pos(height: nat)
    requires
        height >= 1,
    ensures
        subtree_len(height) >= 1,
        subtree_len(height) == 2 * subtree_len((height - 1) as nat) + 1,
{
}

/// Well-formedness of a subtree depends on its own nodes and on the
/// rectangles of its own range only.
pub proof fn lemma_subtree_wf_frame(
    nodes1: Seq<Node>,
    r1: Seq<Rect>,
    nodes2: Seq<Node>,
    r2: Seq<Rect>,
    at: int,
    height: nat,
    axis: Axis,
    lo: int,
    hi: int,
    bucket: nat,
)
    requires
        subtree_wf(nodes1, r1, at, height, axis, lo, hi, bucket),
        at + subtree_len(height) <= nodes2.len(),
        hi <= r2.len(),
        forall|k: int| at <= k < at + subtree_len(height) ==> #[trigger] nodes1[k] == nodes2[k],
        forall|i: int| lo <= i < hi ==> #[trigger] r1[i] == r2[i],
    ensures
        subtree_wf(nodes2, r2, at, height, axis, lo, hi, bucket),
    decreases height,
{
    let n = nodes1[at];
    assert(nodes2[at] == n);
    assert(is_cont(r2, axis, lo, n.end as int, n.cont)) by {
        if let Some(c) = n.cont {
            let i = choose|i: int| lo <= i < n.end && (#[trigger] r1[i]).range(axis).start == c.start;
            assert(r2[i].range(axis).start == c.start);
            let j = choose|j: int| lo <= j < n.end && (#[trigger] r1[j]).range(axis).end == c.end;
            assert(r2[j].range(axis).end == c.end);
            assert forall|i: int| lo <= i < n.end implies c.encloses(
                (#[trigger] r2[i]).range(axis),
            ) by {
                assert(r1[i] == r2[i]);
            }
        }
    }
    assert(sorted_by_key(r2, axis, lo, n.end as int)) by {
        assert forall|i: int, j: int| lo <= i <= j < n.end implies key_le(
            #[trigger] r2[i],
            #[trigger] r2[j],
            axis,
        ) by {
            assert(r1[i] == r2[i] && r1[j] == r2[j]);
            assert(key_le(r1[i], r1[j], axis));
        }
    }
    if height > 1 {
        let h1 = (height - 1) as nat;
        let right = at + 1 + subtree_len(h1);
        assert(nodes2[right] == nodes1[right]);
        let mid = nodes1[right].start as int;
        lemma_subtree_wf_frame(
            nodes1,
            r1,
            nodes2,
            r2,
            at + 1,
            h1,
            axis.other(),
            n.end as int,
            mid,
            bucket,
        );
        lemma_subtree_wf_frame(nodes1, r1, nodes2, r2, right, h1, axis.other(), mid, hi, bucket);
        if let Some(d) = n.div {
            assert(r1.subrange(lo, hi) =~= r2.subrange(lo, hi));
            assert forall|i: int| lo <= i < n.end implies (#[trigger] r2[i]).range(axis).has(
                d as int,
            ) by {
                assert(r1[i] == r2[i]);
            }
            assert forall|i: int| n.end <= i < mid implies (#[trigger] r2[i]).range(axis).end
                < d by {
                assert(r1[i] == r2[i]);
            }
            assert forall|i: int| mid <= i < hi implies (#[trigger] r2[i]).range(axis).start
                > d by {
                assert(r1[i] == r2[i]);
            }
        }
    }
}

/// Well-formedness does not depend on where in a slice the elements of a
/// subtree stand, nor on where in a node array its nodes stand: a subtree
/// whose node records are moved down by `by` positions is well-formed over
/// rectangles that are moved down by as much.
pub proof fn lemma_subtree_wf_shift(
    nodes1: Seq<Node>,
    r1: Seq<Rect>,
    at1: int,
    nodes2: Seq<Node>,
    r2: Seq<Rect>,
    at2: int,
    height: nat,
    axis: Axis,
    lo: int,
    hi: int,
    by: int,
    bucket: nat,
)
    requires
        subtree_wf(nodes1, r1, at1, height, axis, lo, hi, bucket),
        0 <= at2,
        at2 + subtree_len(height) <= nodes2.len(),
        0 <= lo - by,
        hi - by <= r2.len(),
        forall|k: int|
            0 <= k < subtree_len(height) ==> {
                &&& (#[trigger] nodes2[at2 + k]).start == nodes1[at1 + k].start - by
                &&& nodes2[at2 + k].end == nodes1[at1 + k].end - by
                &&& nodes2[at2 + k].cont == nodes1[at1 + k].cont
                &&& nodes2[at2 + k].div == nodes1[at1 + k].div
            },
        forall|i: int| lo <= i < hi ==> #[trigger] r2[i - by] == r1[i],
    ensures
        subtree_wf(nodes2, r2, at2, height, axis, lo - by, hi - by, bucket),
    decreases height,
{
    let n = nodes1[at1];
    let n2 = nodes2[at2];
    lemma_subtree_len_pos(height);
    assert(nodes2[at2 + 0].start == nodes1[at1 + 0].start - by);
    assert(n2.start == n.start - by && n2.end == n.end - by && n2.cont == n.cont && n2.div
        == n.div);
    assert(is_cont(r2, axis, lo - by, n2.end as int, n2.cont)) by {
        if let Some(c) = n.cont {
            let i = choose|i: int| lo <= i < n.end && (#[trigger] r1[i]).range(axis).start == c.start;
            assert(r2[i - by] == r1[i]);
            let j = choose|j: int| lo <= j < n.end && (#[trigger] r1[j]).range(axis).end == c.end;
            assert(r2[j - by] == r1[j]);
            assert forall|i: int| lo - by <= i < n2.end implies c.encloses(
                (#[trigger] r2[i]).range(axis),
            ) by {
                assert(r2[(i + by) - by] == r1[i + by]);
            }
        }
    }
    assert(sorted_by_key(r2, axis, lo - by, n2.end as int)) by {
        assert forall|i: int, j: int| lo - by <= i <= j < n2.end implies key_le(
            #[trigger] r2[i],
            #[trigger] r2[j],
            axis,
        ) by {
            assert(r2[(i + by) - by] == r1[i + by]);
            assert(r2[(j + by) - by] == r1[j + by]);
            assert(key_le(r1[i + by], r1[j + by], axis));
        }
    }
    if height > 1 {
        let h1 = (height - 1) as nat;
        let len1 = subtree_len(h1);
        lemma_subtree_len_pos(h1);
        let right1 = at1 + 1 + len1;
        let right2 = at2 + 1 + len1;
        let mid = nodes1[right1].start as int;
        assert(nodes2[at2 + (1 + len1)].start == nodes1[at1 + (1 + len1)].start - by);
        assert(nodes2[right2].start == mid - by);
        assert forall|k: int| 0 <= k < len1 implies {
            &&& (#[trigger] nodes2[(at2 + 1) + k]).start == nodes1[(at1 + 1) + k].start - by
            &&& nodes2[(at2 + 1) + k].end == nodes1[(at1 + 1) + k].end - by
            &&& nodes2[(at2 + 1) + k].cont == nodes1[(at1 + 1) + k].cont
            &&& nodes2[(at2 + 1) + k].div == nodes1[(at1 + 1) + k].div
        } by {
            assert(nodes2[at2 + (1 + k)].start == nodes1[at1 + (1 + k)].start - by);
        }
        assert forall|k: int| 0 <= k < len1 implies {
            &&& (#[trigger] nodes2[right2 + k]).start == nodes1[right1 + k].start - by
            &&& nodes2[right2 + k].end == nodes1[right1 + k].end - by
            &&& nodes2[right2 + k].cont == nodes1[right1 + k].cont
            &&& nodes2[right2 + k].div == nodes1[right1 + k].div
        } by {
            assert(nodes2[at2 + (1 + len1 + k)].start == nodes1[at1 + (1 + len1 + k)].start - by);
        }
        lemma_subtree_wf_shift(
            nodes1,
            r1,
            at1 + 1,
            nodes2,
            r2,
            at2 + 1,
            h1,
            axis.other(),
            n.end as int,
            mid,
            by,
            bucket,
        );
        lemma_subtree_wf_shift(
            nodes1,
            r1,
            right1,
            nodes2,
            r2,
            right2,
            h1,
            axis.other(),
            mid,
            hi,
            by,
            bucket,
        );
        if let Some(d) = n.div {
            assert(r1.subrange(lo, hi) =~= r2.subrange(lo - by, hi - by)) by {
                assert forall|i: int| 0 <= i < hi - lo implies r1.subrange(lo, hi)[i]
                    == r2.subrange(lo - by, hi - by)[i] by {
                    assert(r2[(i + lo) - by] == r1[i + lo]);
                }
            }
            assert forall|i: int| lo - by <= i < n2.end implies (#[trigger] r2[i]).range(axis).has(
                d as int,
            ) by {
                assert(r2[(i + by) - by] == r1[i + by]);
            }
            assert forall|i: int| n2.end <= i < mid - by implies (#[trigger] r2[i]).range(axis).end
                < d by {
                assert(r2[(i + by) - by] == r1[i + by]);
            }
            assert forall|i: int| mid - by <= i < hi - by implies (#[trigger] r2[i]).range(
                axis,
            ).start > d by {
                assert(r2[(i + by) - by] == r1[i + by]);
            }
        }
    }
}

/// What well-formedness says of where the elements of a subtree stand.
pub proof fn lemma_subtree_layout(
    nodes: Seq<Node>,
    r: Seq<Rect>,
    at: int,
    height: nat,
    axis: Axis,
    lo: int,
    hi: int,
    bucket: nat,
)
    requires
        subtree_wf(nodes, r, at, height, axis, lo, hi, bucket),
    ensures
        height >= 1,
        0 <= at,
        at + subtree_len(height) <= nodes.len(),
        nodes[at].start == lo,
        lo <= nodes[at].end <= hi,
        height == 1 ==> nodes[at].end == hi,
        height > 1 ==> {
            let right = at + 1 + subtree_len((height - 1) as nat);
            let mid = nodes[right].start as int;
            &&& nodes[at].end <= mid <= hi
            &&& subtree_wf(
                nodes,
                r,
                at + 1,
                (height - 1) as nat,
                axis.other(),
                nodes[at].end as int,
                mid,
                bucket,
            )
            &&& subtree_wf(nodes, r, right, (height - 1) as nat, axis.other(), mid, hi, bucket)
        },
{
}

/// The element ranges of the nodes of a well-formed subtree follow one
/// another without gap or overlap, in pre-order, from `lo` to `hi`.
#[verifier::rlimit(40)]
pub proof fn lemma_nodes_contiguous(
    nodes: Seq<Node>,
    r: Seq<Rect>,
    at: int,
    height: nat,
    axis: Axis,
    lo: int,
    hi: int,
    bucket: nat,
)
    requires
        subtree_wf(nodes, r, at, height, axis, lo, hi, bucket),
    ensures
        nodes[at].start == lo,
        nodes[at + subtree_len(height) - 1].end == hi,
        forall|k: int|
            at <= k < at + subtree_len(height) ==> (#[trigger] nodes[k]).start <= nodes[k].end,
        forall|k: int|
            at <= k < at + subtree_len(height) - 1 ==> (#[trigger] nodes[k]).end == nodes[k
                + 1].start,
    decreases height,
{
    lemma_subtree_layout(nodes, r, at, height, axis, lo, hi, bucket);
    lemma_subtree_len_pos(height);
    if height > 1 {
        let h1 = (height - 1) as nat;
        let len1 = subtree_len(h1);
        let n = nodes[at];
        let right = at + 1 + len1;
        let mid = nodes[right].start as int;
        lemma_subtree_len_pos(h1);
        lemma_nodes_contiguous(nodes, r, at + 1, h1, axis.other(), n.end as int, mid, bucket);
        lemma_nodes_contiguous(nodes, r, right, h1, axis.other(), mid, hi, bucket);
        assert(subtree_len(height) == 2 * len1 + 1);
        assert(nodes[at + 1].start == n.end);
        assert(nodes[right - 1].end == mid);
        assert(nodes[right + len1 - 1].end == hi);
        assert forall|k: int| at <= k < at + subtree_len(height) implies (#[trigger] nodes[k]).start
            <= nodes[k].end by {
            if k == at {
            } else if k < right {
                assert(at + 1 <= k < at + 1 + len1);
            } else {
                assert(right <= k < right + len1);
            }
        }
        assert forall|k: int| at <= k < at + subtree_len(height) - 1 implies (
        #[trigger] nodes[k]).end == nodes[k + 1].start by {
            if k == at {
            } else if k < right - 1 {
                assert(at + 1 <= k < at + 1 + len1 - 1);
            } else if k == right - 1 {
            } else {
                assert(right <= k < right + len1 - 1);
            }
        }
    } else {
        assert(subtree_len(1) == 1) by {
            reveal_with_fuel(subtree_len, 2);
        }
    }
}

/// Every position of the slice belongs to exactly one node of a
/// well-formed subtree.
pub proof fn lemma_one_node_per_position(
    nodes: Seq<Node>,
    r: Seq<Rect>,
    at: int,
    height: nat,
    axis: Axis,
    lo: int,
    hi: int,
    bucket: nat,
    i: int,
) -> (k: int)
    requires
        subtree_wf(nodes, r, at, height, axis, lo, hi, bucket),
        lo <= i < hi,
    ensures
        at <= k < at + subtree_len(height),
        nodes[k].start <= i < nodes[k].end,
        forall|k2: int|
            at <= k2 < at + subtree_len(height) && (#[trigger] nodes[k2]).start <= i < nodes[k2].end
                ==> k2 == k,
    decreases height,
{
    let n = nodes[at];
    lemma_nodes_contiguous(nodes, r, at, height, axis, lo, hi, bucket);
    lemma_starts_ordered(nodes, at, at + subtree_len(height));
    if n.start <= i < n.end {
        assert forall|k2: int|
            at <= k2 < at + subtree_len(height) && (#[trigger] nodes[k2]).start <= i
                < nodes[k2].end implies k2 == at by {
            if k2 > at {
                assert(nodes[at].end <= nodes[k2].start);
            }
        }
        at
    } else {
        let h1 = (height - 1) as nat;
        let right = at + 1 + subtree_len(h1);
        let mid = nodes[right].start as int;
        lemma_subtree_len_pos(h1);
        let k = if i < mid {
            lemma_one_node_per_position(nodes, r, at + 1, h1, axis.other(), n.end as int, mid, bucket, i)
        } else {
            lemma_one_node_per_position(nodes, r, right, h1, axis.other(), mid, hi, bucket, i)
        };
        assert forall|k2: int|
            at <= k2 < at + subtree_len(height) && (#[trigger] nodes[k2]).start <= i
                < nodes[k2].end implies k2 == k by {
            if k2 < k {
                assert(nodes[k2].end <= nodes[k].start);
            } else if k2 > k {
                assert(nodes[k].end <= nodes[k2].start);
            }
        }
        k
    }
}

/// Where each node's range ends where the next begins, an earlier node
/// ends before a later one begins.
pub proof fn lemma_starts_ordered(nodes: Seq<Node>, from: int, to: int)
    requires
        0 <= from <= to <= nodes.len(),
        forall|k: int| from <= k < to ==> (#[trigger] nodes[k]).start <= nodes[k].end,
        forall|k: int| from <= k < to - 1 ==> (#[trigger] nodes[k]).end == nodes[k + 1].start,
    ensures
        forall|a: int, b: int|
            from <= a < b < to ==> (#[trigger] nodes[a]).end <= (#[trigger] nodes[b]).start,
    decreases to - from,
{
    if to - from >= 2 {
        lemma_starts_ordered(nodes, from, to - 1);
        assert forall|a: int, b: int| from <= a < b < to implies (#[trigger] nodes[a]).end <= (
        #[trigger] nodes[b]).start by {
            if b == to - 1 {
                if a < to - 2 {
                    assert(nodes[a].end <= nodes[to - 2].start);
                    assert(nodes[to - 2].start <= nodes[to - 2].end);
                }
                assert(nodes[to - 2].end == nodes[to - 1].start);
            }
        }
    }
}

} // verus!
