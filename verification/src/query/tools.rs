//! Helpers shared by the builder and the queries: reaching into a slice of
//! elements by position.

use vstd::prelude::*;
use crate::node::Aabb;
use crate::pmut::PMut;
use crate::query::colfind::CollisionHandler;

verus! {

/// Exchanges the elements at two positions.
pub fn swap_at<T>(elems: &mut [T], i: usize, j: usize)
    requires
        i < old(elems)@.len(),
        j < old(elems)@.len(),
    ensures
        final(elems)@ == old(elems)@.update(i as int, old(elems)@[j as int]).update(
            j as int,
            old(elems)@[i as int],
        ),
{
    if i < j {
        let (head, tail) = elems.split_at_mut(j);
        core::mem::swap(&mut head[i], &mut tail[0]);
        proof {
            assert(elems@ =~= old(elems)@.update(i as int, old(elems)@[j as int]).update(
                j as int,
                old(elems)@[i as int],
            ));
        }
    } else if j < i {
        let (head, tail) = elems.split_at_mut(i);
        core::mem::swap(&mut head[j], &mut tail[0]);
        proof {
            assert(elems@ =~= old(elems)@.update(i as int, old(elems)@[j as int]).update(
                j as int,
                old(elems)@[i as int],
            ));
        }
    } else {
        proof {
            assert(elems@ =~= old(elems)@.update(i as int, old(elems)@[j as int]).update(
                j as int,
                old(elems)@[i as int],
            ));
        }
    }
}

/// The elements at `lo..hi`, protected.
pub fn range_mut<'a, T>(elems: &'a mut [T], lo: usize, hi: usize) -> (r: PMut<'a, [T]>)
    requires
        lo <= hi <= old(elems)@.len(),
    ensures
        r.target()@ == old(elems)@.subrange(lo as int, hi as int),
        final(elems)@ == old(elems)@.subrange(0, lo as int) + final(r.target())@
            + old(elems)@.subrange(hi as int, old(elems)@.len() as int),
{
    let (head, _tail) = elems.split_at_mut(hi);
    let (_skip, mid) = head.split_at_mut(lo);
    PMut::new(mid)
}

/// The elements at `a_lo..a_hi` and those at `b_lo..b_hi`, protected. The
/// first range lies before the second.
pub fn two_ranges_mut<'a, T>(
    elems: &'a mut [T],
    a_lo: usize,
    a_hi: usize,
    b_lo: usize,
    b_hi: usize,
) -> (r: (PMut<'a, [T]>, PMut<'a, [T]>))
    requires
        a_lo <= a_hi <= b_lo <= b_hi <= old(elems)@.len(),
    ensures
        r.0.target()@ == old(elems)@.subrange(a_lo as int, a_hi as int),
        r.1.target()@ == old(elems)@.subrange(b_lo as int, b_hi as int),
        final(elems)@ == old(elems)@.subrange(0, a_lo as int) + final(r.0.target())@
            + old(elems)@.subrange(a_hi as int, b_lo as int) + final(r.1.target())@
            + old(elems)@.subrange(b_hi as int, old(elems)@.len() as int),
{
    let (head, tail) = elems.split_at_mut(b_lo);
    let (front, _gap) = head.split_at_mut(a_hi);
    let (_skip, first) = front.split_at_mut(a_lo);
    let (second, _rest) = tail.split_at_mut(b_hi - b_lo);
    proof {
        assert(old(elems)@.subrange(0, b_lo as int).subrange(0, a_hi as int).subrange(
            a_lo as int,
            a_hi as int,
        ) =~= old(elems)@.subrange(a_lo as int, a_hi as int));
        assert(old(elems)@.subrange(b_lo as int, old(elems)@.len() as int).subrange(
            0,
            b_hi - b_lo,
        ) =~= old(elems)@.subrange(b_lo as int, b_hi as int));
    }
    (PMut::new(first), PMut::new(second))
}

/// The pairs `p.0 < p.1` below `n` that come, in the order of a double
/// loop, before the pair `(i, j)`.
pub open spec fn pairs_before(n: int, i: int, j: int) -> Set<(int, int)> {
    Set::new(|p: (int, int)| 0 <= p.0 < p.1 < n && (p.0 < i || (p.0 == i && p.1 < j)))
}

/// Whether one pair comes before another in the order of a double loop:
/// by first position, and by second position where the first is the same.
pub open spec fn pair_before(p: (int, int), q: (int, int)) -> bool {
    p.0 < q.0 || (p.0 == q.0 && p.1 < q.1)
}

/// Every pair has its smaller position first, and the pairs stand in the
/// order of a double loop.
pub open spec fn in_pair_order(pairs: Seq<(int, int)>) -> bool {
    &&& forall|k: int| 0 <= k < pairs.len() ==> (#[trigger] pairs[k]).0 < pairs[k].1
    &&& forall|k: int, l: int|
        0 <= k < l < pairs.len() ==> pair_before(#[trigger] pairs[k], #[trigger] pairs[l])
}

/// Shows the handler every pair of elements of `arr`, each pair once,
/// whatever their rectangles: the first element with each later one, then
/// the second with each later one, and so on. In each pair the earlier
/// element is the handler's first argument. Of `n` elements that makes
/// `n * (n - 1) / 2` calls. Every element stays where it stands.
pub fn for_every_pair<F: CollisionHandler>(arr: PMut<[F::T]>, func: &mut F) -> (pairs: Ghost<
    Seq<(int, int)>,
>)
    requires
        old(func).inv(),
    ensures
        crate::model::rects_of(final(arr.target())@) == crate::model::rects_of(arr.target()@),
        crate::model::keys_of(final(arr.target())@) == crate::model::keys_of(arr.target()@),
        final(func).inv(),
        final(func).seen() == old(func).seen() + crate::model::at_pairs(
            crate::model::rects_of(arr.target()@),
            pairs@,
        ),
        final(func).seen_keys() == old(func).seen_keys() + crate::model::at_pairs(
            crate::model::keys_of(arr.target()@),
            pairs@,
        ),
        crate::model::exact(pairs@, crate::model::every_pair(arr.target()@.len() as int)),
        in_pair_order(pairs@),
        2 * pairs@.len() == arr.target()@.len() * (arr.target()@.len() - 1),
{
    let ghost r = crate::model::rects_of(arr.target()@);
    let ghost ks = crate::model::keys_of(arr.target()@);
    let ghost mut pairs: Seq<(int, int)> = Seq::empty();
    let mut b = arr;
    let n = b.len();
    let mut i: usize = 0;
    proof {
        assert(old(func).seen() + crate::model::at_pairs(r, pairs) =~= old(func).seen());
        assert(old(func).seen_keys() + crate::model::at_pairs(ks, pairs) =~= old(func).seen_keys());
        assert(pairs_before(n as int, 0, 1) =~= Set::<(int, int)>::empty());
    }
    while i < n
        invariant
            i <= n,
            n == r.len(),
            n == b.target()@.len(),
            crate::model::rects_of(b.target()@) == r,
            crate::model::keys_of(b.target()@) == ks,
            final(b.target())@ == final(arr.target())@,
            func.inv(),
            func.seen() == old(func).seen() + crate::model::at_pairs(r, pairs),
            func.seen_keys() == old(func).seen_keys() + crate::model::at_pairs(ks, pairs),
            crate::model::exact(pairs, pairs_before(n as int, i as int, i + 1)),
            in_pair_order(pairs),
        decreases n - i,
    {
        let mut j: usize = i + 1;
        while j < n
            invariant
                i < n,
                i < j <= n,
                n == r.len(),
                n == b.target()@.len(),
                crate::model::rects_of(b.target()@) == r,
                crate::model::keys_of(b.target()@) == ks,
                final(b.target())@ == final(arr.target())@,
                func.inv(),
                func.seen() == old(func).seen() + crate::model::at_pairs(r, pairs),
                func.seen_keys() == old(func).seen_keys() + crate::model::at_pairs(ks, pairs),
                crate::model::exact(pairs, pairs_before(n as int, i as int, j as int)),
                in_pair_order(pairs),
            decreases n - j,
        {
            let ghost before = pairs_before(n as int, i as int, j as int);
            let ghost x = (i as int, j as int);
            proof {
                assert(r[i as int] == b.target()@[i as int].rect());
                assert(ks[i as int] == b.target()@[i as int].key());
                assert(r[j as int] == b.target()@[j as int].rect());
                assert(ks[j as int] == b.target()@[j as int].key());
            }
            let (a1, a2) = b.borrow_mut().pair_mut(i, j);
            func.collide(a1, a2);
            proof {
                assert(crate::model::rects_of(b.target()@) =~= r);
                assert(crate::model::keys_of(b.target()@) =~= ks);
                assert forall|k: int| 0 <= k < pairs.len() implies pair_before(
                    #[trigger] pairs[k],
                    x,
                ) by {
                    assert(before.contains(crate::model::norm(pairs[k])));
                }
                crate::model::lemma_exact_push(pairs, before, x);
                crate::model::lemma_at_pairs_push(r, pairs, x);
                crate::model::lemma_at_pairs_push(ks, pairs, x);
                assert(before.insert(x) =~= pairs_before(n as int, i as int, j + 1));
                assert(old(func).seen() + crate::model::at_pairs(r, pairs.push(x)) =~= (
                old(func).seen() + crate::model::at_pairs(r, pairs)).push(
                    (r[i as int], r[j as int]),
                ));
                assert(old(func).seen_keys() + crate::model::at_pairs(ks, pairs.push(x)) =~= (
                old(func).seen_keys() + crate::model::at_pairs(ks, pairs)).push(
                    (ks[i as int], ks[j as int]),
                ));
                pairs = pairs.push(x);
            }
            j += 1;
        }
        proof {
            assert(pairs_before(n as int, i as int, n as int) =~= pairs_before(
                n as int,
                i + 1,
                i + 2,
            ));
        }
        i += 1;
    }
    proof {
        assert(pairs_before(n as int, n as int, n + 1) =~= crate::model::every_pair(n as int));
        lemma_every_pair_count(pairs, n as nat);
    }
    let _ = b.into_ref();
    Ghost(pairs)
}

/// Keeping the items that pass a test, in no particular order.
pub trait RetainMutUnordered<T> {
    /// The items.
    spec fn items(&self) -> Seq<T>;

    /// Keeps the items of which `f` says `true` and drops the others. The
    /// items that stay may change their order.
    fn retain_mut_unordered<F>(&mut self, f: F) where F: Fn(&T) -> bool
        requires
            forall|x: &T| #[trigger] call_requires(f, (x,)),
        ensures
            exists|pass: vstd::multiset::Multiset<T>, fail: vstd::multiset::Multiset<T>|
                {
                    &&& old(self).items().to_multiset() == pass.add(fail)
                    &&& final(self).items().to_multiset() == pass
                    &&& forall|x: T| pass.count(x) > 0 ==> call_ensures(f, (&x,), true)
                    &&& forall|x: T| fail.count(x) > 0 ==> call_ensures(f, (&x,), false)
                },
    ;
}

impl<T> RetainMutUnordered<T> for Vec<T> {
    open spec fn items(&self) -> Seq<T> {
        self@
    }

    fn retain_mut_unordered<F>(&mut self, f: F) where F: Fn(&T) -> bool {
        let len = self.len();
        let mut del: usize = 0;
        let mut cursor: usize = 0;
        let mut seen: usize = 0;
        proof {
            crate::model::lemma_rearranged_refl(old(self)@, 0, len as int);
            broadcast use vstd::multiset::group_multiset_axioms;
            broadcast use vstd::seq_lib::group_to_multiset_ensures;

        }
        while seen < len
            invariant
                seen <= len,
                seen == cursor + del,
                len == self@.len(),
                forall|x: &T| #[trigger] call_requires(f, (x,)),
                crate::model::rearranged(old(self)@, self@, 0, len as int),
                forall|i: int| 0 <= i < cursor ==> call_ensures(f, (&#[trigger] self@[i],), true),
                forall|i: int|
                    len - del <= i < len ==> call_ensures(f, (&#[trigger] self@[i],), false),
            decreases len - seen,
        {
            let keep = f(&self[cursor]);
            if !keep {
                let ghost before = self@;
                swap_at(self.as_mut_slice(), cursor, len - 1 - del);
                proof {
                    crate::model::lemma_rearranged_swap(
                        before,
                        0,
                        len as int,
                        cursor as int,
                        len - 1 - del,
                    );
                    crate::model::lemma_rearranged_trans(old(self)@, before, self@, 0, len as int);
                }
                del += 1;
            } else {
                cursor += 1;
            }
            seen += 1;
        }
        let ghost full = self@;
        if del > 0 {
            self.truncate(len - del);
        }
        proof {
            broadcast use vstd::multiset::group_multiset_axioms;
            broadcast use vstd::seq_lib::group_to_multiset_ensures;

            let head = full.subrange(0, cursor as int);
            let tail = full.subrange(cursor as int, len as int);
            assert(self@ =~= head);
            assert(full =~= head + tail);
            vstd::seq_lib::lemma_multiset_commutative(head, tail);
            assert(old(self)@.subrange(0, len as int) =~= old(self)@);
            assert(full.subrange(0, len as int) =~= full);
            let pass = head.to_multiset();
            let fail = tail.to_multiset();
            assert forall|x: T| pass.count(x) > 0 implies call_ensures(f, (&x,), true) by {
                assert(head.contains(x));
                let k = choose|k: int| 0 <= k < head.len() && head[k] == x;
                assert(full[k] == x);
            }
            assert forall|x: T| fail.count(x) > 0 implies call_ensures(f, (&x,), false) by {
                assert(tail.contains(x));
                let k = choose|k: int| 0 <= k < tail.len() && tail[k] == x;
                assert(full[k + cursor] == x);
            }
        }
    }
}

/// Every pair `i < j` of positions below `n`, listed by the later
/// position: one way of delivering them all.
pub open spec fn pairs_upto(n: nat) -> Seq<(int, int)>
    decreases n,
{
    if n == 0 {
        Seq::empty()
    } else {
        pairs_upto((n - 1) as nat) + Seq::new((n - 1) as nat, |i: int| (i, n - 1))
    }
}

/// The list of all pairs below `n` delivers them exactly, and there are
/// `n * (n - 1) / 2` of them.
pub proof fn lemma_pairs_upto(n: nat)
    ensures
        crate::model::exact(pairs_upto(n), crate::model::every_pair(n as int)),
        2 * pairs_upto(n).len() == n * (n - 1),
    decreases n,
{
    if n == 0 {
        assert(crate::model::every_pair(0) =~= Set::<(int, int)>::empty());
    } else {
        let m = (n - 1) as nat;
        lemma_pairs_upto(m);
        let column = Seq::new(m, |i: int| (i, n - 1));
        let last = Set::new(|p: (int, int)| 0 <= p.0 < p.1 && p.1 == n - 1);
        assert forall|p: (int, int)| #[trigger] last.contains(p) implies exists|k: int|
            0 <= k < column.len() && crate::model::norm(#[trigger] column[k]) == p by {
            assert(crate::model::norm(column[p.0]) == p);
        }
        assert(crate::model::exact(column, last));
        assert(crate::model::every_pair(m as int).disjoint(last));
        crate::model::lemma_exact_concat(pairs_upto(m), crate::model::every_pair(m as int), column, last);
        assert(crate::model::every_pair(m as int).union(last) =~= crate::model::every_pair(n as int));
        assert(2 * (pairs_upto(m).len() + m) == n * (n - 1)) by (nonlinear_arith)
            requires
                2 * pairs_upto(m).len() == m * (m - 1),
                m == n - 1,
        ;
    }
}

/// However all the pairs below `n` are delivered exactly, `n * (n - 1) /
/// 2` pairs are delivered.
pub proof fn lemma_every_pair_count(pairs: Seq<(int, int)>, n: nat)
    requires
        crate::model::exact(pairs, crate::model::every_pair(n as int)),
    ensures
        2 * pairs.len() == n * (n - 1),
{
    lemma_pairs_upto(n);
    crate::model::lemma_exact_agree(pairs, pairs_upto(n), crate::model::every_pair(n as int));
}

/// Of `n` elements with one and the same rectangle every pair
/// intersects: an exact delivery of the intersecting pairs delivers
/// `n * (n - 1) / 2` pairs.
pub proof fn lemma_identical_count(r: Seq<crate::geom::Rect>, pairs: Seq<(int, int)>)
    requires
        forall|i: int| 0 <= i < r.len() ==> (#[trigger] r[i]) == r[0] && r[i].valid(),
        crate::model::exact(pairs, crate::model::within(r, 0, r.len() as int)),
    ensures
        2 * pairs.len() == r.len() * (r.len() - 1),
{
    assert(crate::model::within(r, 0, r.len() as int) =~= crate::model::every_pair(r.len() as int)) by {
        let all = crate::model::every_pair(r.len() as int);
        let meeting = crate::model::within(r, 0, r.len() as int);
        assert forall|p: (int, int)| all.contains(p) implies meeting.contains(p) by {
            assert(r[p.0] == r[0] && r[p.1] == r[0]);
            assert(r[p.0].valid());
        }
    }
    lemma_every_pair_count(pairs, r.len());
}

} // verus!
