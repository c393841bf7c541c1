//! The recursion over the tree: each node against itself and against its
//! descendants.

use vstd::prelude::*;
use core::marker::PhantomData;
use crate::geom::{Axis, Range, Rect};
use crate::pmut::{HasInner, PMut};
use crate::node::{Aabb, Node};
use crate::query::colfind::oned::{find_2d, find_parallel_2d, find_perp_2d1};
use crate::query::colfind::CollisionHandler;
use crate::query::tools::{range_mut, two_ranges_mut};
use crate::tree::par::{ParResult, Parallel};
use crate::tree::Vistr;
use crate::util::PreVec;

verus! {

/// A node that holds elements, by what the recursion needs of it: its
/// axis, where its elements stand and their span along the axis.
#[derive(Clone, Copy)]
pub struct DestructuredNode {
    pub axis: Axis,
    pub start: usize,
    pub end: usize,
    pub cont: Range,
}

impl DestructuredNode {
    /// The node, unless it holds no element.
    pub fn new(axis: Axis, node: &Node) -> (r: Option<DestructuredNode>)
        ensures
            r == (match node.cont {
                None => None::<DestructuredNode>,
                Some(cont) => Some(
                    DestructuredNode { axis, start: node.start, end: node.end, cont },
                ),
            }),
    {
        match node.cont {
            None => None,
            Some(cont) => Some(DestructuredNode { axis, start: node.start, end: node.end, cont }),
        }
    }

    /// The record agrees with the rectangles `r`: its elements are sorted
    /// by start along its axis and `cont` is their tight span.
    pub open spec fn wf(self, r: Seq<crate::geom::Rect>) -> bool {
        &&& self.start <= self.end <= r.len()
        &&& crate::model::sorted_by_start(r, self.axis, self.start as int, self.end as int)
        &&& crate::model::is_cont(r, self.axis, self.start as int, self.end as int, Some(self.cont))
    }
}

/// Shows the handler the intersecting pairs among the elements of one
/// node, which stand at `lo..hi` sorted by start along `axis`.
pub fn handle_node<F: CollisionHandler>(
    prevec: &mut PreVec,
    func: &mut F,
    axis: Axis,
    elems: &mut [F::T],
    lo: usize,
    hi: usize,
) -> (pairs: Ghost<Seq<(int, int)>>)
    requires
        old(func).inv(),
        lo <= hi <= old(elems)@.len(),
        crate::model::sorted_by_start(
            crate::model::rects_of(old(elems)@),
            axis,
            lo as int,
            hi as int,
        ),
        crate::model::all_valid(
            crate::model::rects_of(old(elems)@),
            0,
            old(elems)@.len() as int,
        ),
    ensures
        crate::model::rects_of(final(elems)@) == crate::model::rects_of(old(elems)@),
        crate::model::keys_of(final(elems)@) == crate::model::keys_of(old(elems)@),
        final(func).inv(),
        final(func).seen() == old(func).seen() + crate::model::at_pairs(
            crate::model::rects_of(old(elems)@),
            pairs@,
        ),
        final(func).seen_keys() == old(func).seen_keys() + crate::model::at_pairs(
            crate::model::keys_of(old(elems)@),
            pairs@,
        ),
        crate::model::exact(
            pairs@,
            crate::model::within(crate::model::rects_of(old(elems)@), lo as int, hi as int),
        ),
{
    let ghost r = crate::model::rects_of(elems@);
    let ghost ks = crate::model::keys_of(elems@);
    let ghost rs = r.subrange(lo as int, hi as int);
    let sub = range_mut(elems, lo, hi);
    proof {
        crate::model::lemma_rects_of_subrange(old(elems)@, lo as int, hi as int);
        assert forall|i: int, j: int| 0 <= i <= j < rs.len() implies (#[trigger] rs[i]).range(
            axis,
        ).start <= (#[trigger] rs[j]).range(axis).start by {
            assert(rs[i] == r[i + lo] && rs[j] == r[j + lo]);
        }
        assert forall|i: int| 0 <= i < rs.len() implies (#[trigger] rs[i]).valid() by {
            assert(rs[i] == r[i + lo]);
        }
    }
    let found = find_2d(prevec, axis, sub, func);
    proof {
        crate::model::lemma_within_shift(r, lo as int, hi as int, found@);
        assert(crate::model::rects_of(elems@) =~= r) by {
            let was = crate::model::rects_of(sub.target()@);
            let now = crate::model::rects_of(final(sub.target())@);
            assert(was == now);
            assert(was.len() == hi - lo);
            assert(now.len() == final(sub.target())@.len());
            assert(elems@.len() == r.len());
            assert forall|i: int| 0 <= i < r.len() implies crate::model::rects_of(elems@)[i]
                == r[i] by {
                if lo <= i < hi {
                    assert(now[i - lo] == final(sub.target())@[i - lo].rect());
                    assert(was[i - lo] == r[i]);
                }
            }
        }
        assert(crate::model::keys_of(elems@) =~= ks) by {
            let was = crate::model::keys_of(sub.target()@);
            let now = crate::model::keys_of(final(sub.target())@);
            assert(was == now);
            assert(was.len() == hi - lo);
            assert(now.len() == final(sub.target())@.len());
            assert(elems@.len() == ks.len());
            assert forall|i: int| 0 <= i < ks.len() implies crate::model::keys_of(elems@)[i]
                == ks[i] by {
                if lo <= i < hi {
                    assert(now[i - lo] == final(sub.target())@[i - lo].key());
                    assert(was[i - lo] == ks[i]);
                }
            }
        }
    }
    Ghost(crate::model::shifted(found@, lo as int, lo as int))
}

/// Shows the handler the intersecting pairs between the elements of the
/// node `anchor` and those of a node below it, which is divided along
/// `axis`.
///
/// On the same axis the two spans decide whether anything can meet, and the
/// two sorted groups are swept together. On different axes only the lower
/// node is sorted along `axis`, and each element of the anchor is compared
/// with the lower node's elements in order.
pub fn handle_children<F: CollisionHandler>(
    prevec: &mut PreVec,
    func: &mut F,
    elems: &mut [F::T],
    anchor: &DestructuredNode,
    axis: Axis,
    current: &Node,
) -> (pairs: Ghost<Seq<(int, int)>>)
    requires
        old(func).inv(),
        anchor.wf(crate::model::rects_of(old(elems)@)),
        anchor.end <= current.start <= current.end <= old(elems)@.len(),
        crate::model::sorted_by_start(
            crate::model::rects_of(old(elems)@),
            axis,
            current.start as int,
            current.end as int,
        ),
        crate::model::is_cont(
            crate::model::rects_of(old(elems)@),
            axis,
            current.start as int,
            current.end as int,
            current.cont,
        ),
        crate::model::all_valid(
            crate::model::rects_of(old(elems)@),
            0,
            old(elems)@.len() as int,
        ),
    ensures
        crate::model::rects_of(final(elems)@) == crate::model::rects_of(old(elems)@),
        crate::model::keys_of(final(elems)@) == crate::model::keys_of(old(elems)@),
        final(func).inv(),
        final(func).seen() == old(func).seen() + crate::model::at_pairs(
            crate::model::rects_of(old(elems)@),
            pairs@,
        ),
        final(func).seen_keys() == old(func).seen_keys() + crate::model::at_pairs(
            crate::model::keys_of(old(elems)@),
            pairs@,
        ),
        crate::model::exact(
            pairs@,
            crate::model::between(
                crate::model::rects_of(old(elems)@),
                anchor.start as int,
                anchor.end as int,
                current.start as int,
                current.end as int,
            ),
        ),
{
    let ghost r = crate::model::rects_of(elems@);
    let ghost ks = crate::model::keys_of(elems@);
    let ghost want = crate::model::between(
        r,
        anchor.start as int,
        anchor.end as int,
        current.start as int,
        current.end as int,
    );
    let ghost none: Seq<(int, int)> = Seq::empty();
    proof {
        assert(old(func).seen() + crate::model::at_pairs(r, none) =~= old(func).seen());
        assert(old(func).seen_keys() + crate::model::at_pairs(ks, none) =~= old(func).seen_keys());
    }
    let cont = match current.cont {
        None => {
            proof {
                assert(want =~= Set::<(int, int)>::empty());
            }
            return Ghost(none);
        },
        Some(cont) => cont,
    };
    let same = axis.is_equal_to(anchor.axis);
    if same && !cont.intersects(&anchor.cont) {
        proof {
            assert forall|p: (int, int)| want.contains(p) implies false by {
                assert(anchor.cont.encloses(r[p.0].range(axis)));
                assert(cont.encloses(r[p.1].range(axis)));
                assert(r[p.0].valid() && r[p.1].valid());
            }
            assert(want =~= Set::<(int, int)>::empty());
        }
        return Ghost(none);
    }
    let ghost ra = r.subrange(anchor.start as int, anchor.end as int);
    let ghost rb = r.subrange(current.start as int, current.end as int);
    let (first, second) = two_ranges_mut(
        elems,
        anchor.start,
        anchor.end,
        current.start,
        current.end,
    );
    proof {
        crate::model::lemma_rects_of_subrange(
            old(elems)@,
            anchor.start as int,
            anchor.end as int,
        );
        crate::model::lemma_rects_of_subrange(
            old(elems)@,
            current.start as int,
            current.end as int,
        );
        assert forall|i: int, j: int| 0 <= i <= j < rb.len() implies (#[trigger] rb[i]).range(
            axis,
        ).start <= (#[trigger] rb[j]).range(axis).start by {
            assert(rb[i] == r[i + current.start] && rb[j] == r[j + current.start]);
        }
        assert forall|i: int| 0 <= i < rb.len() implies (#[trigger] rb[i]).valid() by {
            assert(rb[i] == r[i + current.start]);
        }
        assert forall|i: int| 0 <= i < ra.len() implies (#[trigger] ra[i]).valid() by {
            assert(ra[i] == r[i + anchor.start]);
        }
        if same {
            assert forall|i: int, j: int| 0 <= i <= j < ra.len() implies (#[trigger] ra[i]).range(
                axis,
            ).start <= (#[trigger] ra[j]).range(axis).start by {
                assert(ra[i] == r[i + anchor.start] && ra[j] == r[j + anchor.start]);
            }
        }
    }
    let found = if same {
        find_parallel_2d(prevec, axis, first, second, func)
    } else {
        find_perp_2d1(axis, first, second, func)
    };
    proof {
        crate::model::lemma_cross_to_between(
            r,
            anchor.start as int,
            anchor.end as int,
            current.start as int,
            current.end as int,
            found@,
        );
        crate::model::lemma_splice_rects(
            old(elems)@,
            elems@,
            anchor.start as int,
            anchor.end as int,
            current.start as int,
            current.end as int,
            final(first.target())@,
            final(second.target())@,
        );        crate::model::lemma_splice_keys(
            old(elems)@,
            elems@,
            anchor.start as int,
            anchor.end as int,
            current.start as int,
            current.end as int,
            final(first.target())@,
            final(second.target())@,
        );
    }
    Ghost(crate::model::shifted(found@, anchor.start as int, current.start as int))
}

/// Compares the elements of one node, the anchor, with those of the nodes
/// below it.
pub struct InnerRecurser {
    pub anchor: DestructuredNode,
}

impl InnerRecurser {
    pub fn new(anchor: DestructuredNode) -> (r: InnerRecurser)
        ensures
            r.anchor == anchor,
    {
        InnerRecurser { anchor }
    }

    /// Shows the handler the intersecting pairs between the anchor's
    /// elements and the elements of the subtree `m`, which is divided along
    /// `this_axis` at its root.
    ///
    /// Where the subtree's root is divided along the anchor's axis, a child
    /// is entered only if the anchor's span reaches over the divider to its
    /// side; otherwise both children are entered.
    #[verifier::rlimit(40)]
    pub fn recurse<F: CollisionHandler>(
        &self,
        this_axis: Axis,
        m: Vistr,
        elems: &mut [F::T],
        prevec: &mut PreVec,
        func: &mut F,
    ) -> (pairs: Ghost<Seq<(int, int)>>)
        requires
            old(func).inv(),
            m.wf(crate::model::rects_of(old(elems)@), this_axis),
            self.anchor.wf(crate::model::rects_of(old(elems)@)),
            self.anchor.end <= m.start(),
            m.end <= old(elems)@.len(),
            crate::model::all_valid(
                crate::model::rects_of(old(elems)@),
                0,
                old(elems)@.len() as int,
            ),
        ensures
            crate::model::rects_of(final(elems)@) == crate::model::rects_of(old(elems)@),
            crate::model::keys_of(final(elems)@) == crate::model::keys_of(old(elems)@),
            final(func).inv(),
            final(func).seen() == old(func).seen() + crate::model::at_pairs(
                crate::model::rects_of(old(elems)@),
                pairs@,
            ),
            final(func).seen_keys() == old(func).seen_keys() + crate::model::at_pairs(
                crate::model::keys_of(old(elems)@),
                pairs@,
            ),
            crate::model::exact(
                pairs@,
                crate::model::between(
                    crate::model::rects_of(old(elems)@),
                    self.anchor.start as int,
                    self.anchor.end as int,
                    m.start(),
                    m.end as int,
                ),
            ),
        decreases m.height,
    {
        let ghost r = crate::model::rects_of(elems@);
        let ghost ks = crate::model::keys_of(elems@);
        let ghost a_lo = self.anchor.start as int;
        let ghost a_hi = self.anchor.end as int;
        let ghost none: Seq<(int, int)> = Seq::empty();
        let (nn, rest) = m.next();
        proof {
            m.lemma_root(r, this_axis);
        }
        let here = handle_children(prevec, func, elems, &self.anchor, this_axis, nn);
        let (left, right) = match rest {
            None => {
                return here;
            },
            Some(children) => children,
        };
        let div = match nn.div {
            None => {
                return here;
            },
            Some(div) => div,
        };
        let ghost e1 = nn.end as int;
        let ghost e2 = left.end as int;
        proof {
            m.lemma_children(r, this_axis);
        }
        let same = this_axis.is_equal_to(self.anchor.axis);
        let went_left = !same || div >= self.anchor.cont.start;
        let went_right = !same || div <= self.anchor.cont.end;
        let in_left = if went_left {
            self.recurse(this_axis.next(), left, elems, prevec, func)
        } else {
            proof {
                assert forall|p: (int, int)| crate::model::between(r, a_lo, a_hi, e1, e2).contains(
                    p,
                ) implies false by {
                    assert(self.anchor.cont.encloses(r[p.0].range(this_axis)));
                    assert(r[p.1].range(this_axis).end < div);
                }
                assert(crate::model::between(r, a_lo, a_hi, e1, e2) =~= Set::<(int, int)>::empty());
            }
            Ghost(none)
        };
        let ghost seen_left = func.seen();
        let ghost keys_left = func.seen_keys();
        let in_right = if went_right {
            self.recurse(this_axis.next(), right, elems, prevec, func)
        } else {
            proof {
                assert forall|p: (int, int)| crate::model::between(
                    r,
                    a_lo,
                    a_hi,
                    e2,
                    m.end as int,
                ).contains(p) implies false by {
                    assert(self.anchor.cont.encloses(r[p.0].range(this_axis)));
                    assert(r[p.1].range(this_axis).start > div);
                }
                assert(crate::model::between(r, a_lo, a_hi, e2, m.end as int) =~= Set::<
                    (int, int),
                >::empty());
            }
            Ghost(none)
        };
        proof {
            crate::model::lemma_exact_below(
                r,
                a_lo,
                a_hi,
                m.start(),
                e1,
                e2,
                m.end as int,
                here@,
                in_left@,
                in_right@,
            );
            crate::model::lemma_shown_below(
                r,
                old(func).seen(),
                seen_left,
                func.seen(),
                went_left,
                went_right,
                here@,
                in_left@,
                in_right@,
            );
            crate::model::lemma_shown_below(
                ks,
                old(func).seen_keys(),
                keys_left,
                func.seen_keys(),
                went_left,
                went_right,
                here@,
                in_left@,
                in_right@,
            );
        }
        Ghost(here@ + in_left@ + in_right@)
    }
}

/// One call that the recursion makes of a splitter.
pub enum SplitCall {
    Div,
    Add,
    LeafStart,
    LeafEnd,
}

/// The calls that going through a subtree of the given height makes of
/// the splitter it is handed and of the parts of it: at a leaf
/// `leaf_start` and `leaf_end`; at any other node `div`, then the calls
/// for the left subtree, made of the first part, then those for the right
/// subtree, made of the second part, and `add` last.
pub open spec fn calls_of(height: nat) -> Seq<SplitCall>
    decreases height,
{
    if height <= 1 {
        seq![SplitCall::LeafStart, SplitCall::LeafEnd]
    } else {
        seq![SplitCall::Div] + calls_of((height - 1) as nat) + calls_of((height - 1) as nat)
            + seq![SplitCall::Add]
    }
}

/// Something that is divided where the recursion forks and put together
/// again where it joins: a place for a caller to gather facts about the
/// levels of a tree.
///
/// A splitter may keep, for the contracts, a record of the calls made of
/// it. Where it does, its parts start with an empty record, and `add`
/// takes their records in.
pub trait Splitter: Sized {
    /// Whether the splitter keeps a record of its calls. One that keeps
    /// none leaves this as it is, and nothing is then said of its calls.
    open spec fn records(&self) -> bool {
        false
    }

    /// The calls made of the splitter and of the parts taken into it, in
    /// order.
    open spec fn calls(&self) -> Seq<SplitCall> {
        Seq::empty()
    }

    /// Called at each inner node; the two parts go down the two subtrees.
    fn div(&mut self) -> (r: (Self, Self))
        ensures
            old(self).records() ==> {
                &&& final(self).records()
                &&& r.0.records()
                &&& r.1.records()
                &&& final(self).calls() == old(self).calls().push(SplitCall::Div)
                &&& r.0.calls() == Seq::<SplitCall>::empty()
                &&& r.1.calls() == Seq::<SplitCall>::empty()
            },
    ;

    /// Called after both subtrees have been handled, with the two parts.
    fn add(&mut self, a: Self, b: Self)
        ensures
            old(self).records() && a.records() && b.records() ==> {
                &&& final(self).records()
                &&& final(self).calls() == (old(self).calls() + a.calls() + b.calls()).push(
                    SplitCall::Add,
                )
            },
    ;

    /// Called before a leaf is handled.
    fn leaf_start(&mut self)
        ensures
            old(self).records() ==> {
                &&& final(self).records()
                &&& final(self).calls() == old(self).calls().push(SplitCall::LeafStart)
            },
    ;

    /// Called after a leaf has been handled.
    fn leaf_end(&mut self)
        ensures
            old(self).records() ==> {
                &&& final(self).records()
                &&& final(self).calls() == old(self).calls().push(SplitCall::LeafEnd)
            },
    ;
}

/// What going through a subtree of the given height does to a splitter
/// that keeps a record: the calls of that subtree are added to it.
pub open spec fn taken_through<K: Splitter>(was: &K, now: &K, height: nat) -> bool {
    was.records() ==> now.records() && now.calls() == was.calls() + calls_of(height)
}

/// A splitter that gathers nothing.
pub struct SplitterEmpty;

impl Splitter for SplitterEmpty {
    fn div(&mut self) -> (r: (Self, Self)) {
        (SplitterEmpty, SplitterEmpty)
    }

    fn add(&mut self, _a: Self, _b: Self) {
    }

    fn leaf_start(&mut self) {
    }

    fn leaf_end(&mut self) {
    }
}

/// Five lists of pairs, one after the other.
pub open spec fn in_turn(
    here: Seq<(int, int)>,
    below_left: Seq<(int, int)>,
    below_right: Seq<(int, int)>,
    in_left: Seq<(int, int)>,
    in_right: Seq<(int, int)>,
) -> Seq<(int, int)> {
    here + below_left + below_right + in_left + in_right
}

/// The pairs stand in the order in which the subtree `m` is gone through
/// at its root: first the intersecting pairs among the root's own
/// elements, then those between the root's elements and the elements of
/// the left subtree, then those between the root's elements and the
/// elements of the right subtree, then the pairs within the left subtree
/// and last the pairs within the right subtree. Of a leaf this says
/// nothing.
pub open spec fn in_node_order(m: Vistr, r: Seq<crate::geom::Rect>, pairs: Seq<(int, int)>) -> bool {
    m.height > 1 ==> exists|
        here: Seq<(int, int)>,
        below_left: Seq<(int, int)>,
        below_right: Seq<(int, int)>,
        in_left: Seq<(int, int)>,
        in_right: Seq<(int, int)>,
    |
        {
            let lo = m.start();
            let e1 = m.left().start();
            let e2 = m.right().start();
            let hi = m.end as int;
            &&& pairs == #[trigger] in_turn(here, below_left, below_right, in_left, in_right)
            &&& crate::model::exact(here, crate::model::within(r, lo, e1))
            &&& crate::model::exact(below_left, crate::model::between(r, lo, e1, e1, e2))
            &&& crate::model::exact(below_right, crate::model::between(r, lo, e1, e2, hi))
            &&& crate::model::exact(in_left, crate::model::within(r, e1, e2))
            &&& crate::model::exact(in_right, crate::model::within(r, e2, hi))
        }
}

/// Finds the intersecting pairs of a tree.
pub struct ColFindRecurser {}

impl ColFindRecurser {
    pub fn new() -> (r: ColFindRecurser) {
        ColFindRecurser {  }
    }

    /// Shows the handler every pair of elements of the subtree `m` whose
    /// rectangles intersect, each pair once: the pairs within the root,
    /// the pairs between the root and the nodes below it, and then the
    /// pairs of the left and of the right subtree.
    #[verifier::rlimit(40)]
    pub fn recurse_seq<F: CollisionHandler, K: Splitter>(
        &self,
        this_axis: Axis,
        prevec: &mut PreVec,
        func: &mut F,
        m: Vistr,
        elems: &mut [F::T],
        splitter: &mut K,
    ) -> (pairs: Ghost<Seq<(int, int)>>)
        requires
            old(func).inv(),
            m.wf(crate::model::rects_of(old(elems)@), this_axis),
            m.end <= old(elems)@.len(),
            crate::model::all_valid(
                crate::model::rects_of(old(elems)@),
                0,
                old(elems)@.len() as int,
            ),
        ensures
            crate::model::rects_of(final(elems)@) == crate::model::rects_of(old(elems)@),
            crate::model::keys_of(final(elems)@) == crate::model::keys_of(old(elems)@),
            final(func).inv(),
            final(func).seen() == old(func).seen() + crate::model::at_pairs(
                crate::model::rects_of(old(elems)@),
                pairs@,
            ),
            final(func).seen_keys() == old(func).seen_keys() + crate::model::at_pairs(
                crate::model::keys_of(old(elems)@),
                pairs@,
            ),
            crate::model::exact(
                pairs@,
                crate::model::within(
                    crate::model::rects_of(old(elems)@),
                    m.start(),
                    m.end as int,
                ),
            ),
            in_node_order(m, crate::model::rects_of(old(elems)@), pairs@),
            taken_through(old(splitter), final(splitter), m.height as nat),
        decreases m.height,
    {
        let ghost r = crate::model::rects_of(elems@);
        let ghost ks = crate::model::keys_of(elems@);
        let ghost none: Seq<(int, int)> = Seq::empty();
        let ghost calls_before = splitter.calls();
        let (nn, rest) = m.next();
        proof {
            m.lemma_root(r, this_axis);
        }
        let (left, right) = match rest {
            None => {
                splitter.leaf_start();
                let here = handle_node(prevec, func, this_axis, elems, nn.start, nn.end);
                splitter.leaf_end();
                proof {
                    assert(calls_before.push(SplitCall::LeafStart).push(SplitCall::LeafEnd)
                        =~= calls_before + calls_of(1));
                }
                return here;
            },
            Some(children) => children,
        };
        let ghost lo = m.start();
        let ghost e1 = nn.end as int;
        let ghost e2 = left.end as int;
        let ghost hi = m.end as int;
        proof {
            m.lemma_children(r, this_axis);
        }
        let (mut splitter1, mut splitter2) = splitter.div();
        let here = handle_node(prevec, func, this_axis, elems, nn.start, nn.end);
        let mut below_left: Ghost<Seq<(int, int)>> = Ghost(none);
        let mut below_right: Ghost<Seq<(int, int)>> = Ghost(none);
        let mut entered = false;
        if nn.div.is_some() {
            if let Some(anchor) = DestructuredNode::new(this_axis, nn) {
                let g = InnerRecurser::new(anchor);
                below_left = g.recurse(this_axis.next(), left, elems, prevec, func);
                below_right = g.recurse(this_axis.next(), right, elems, prevec, func);
                entered = true;
            }
        }
        proof {
            if !entered {
                // Nothing stands at the node, or nothing stands below it.
                assert(crate::model::between(r, lo, e1, e1, e2) =~= Set::<(int, int)>::empty());
                assert(crate::model::between(r, lo, e1, e2, hi) =~= Set::<(int, int)>::empty());
            }
        }
        let ghost seen_mid = func.seen();
        let ghost keys_mid = func.seen_keys();
        let in_left = self.recurse_seq(this_axis.next(), prevec, func, left, elems, &mut splitter1);
        let in_right = self.recurse_seq(
            this_axis.next(),
            prevec,
            func,
            right,
            elems,
            &mut splitter2,
        );
        splitter.add(splitter1, splitter2);
        proof {
            let below = calls_of((m.height - 1) as nat);
            assert((calls_before.push(SplitCall::Div) + (Seq::<SplitCall>::empty() + below) + (
            Seq::<SplitCall>::empty() + below)).push(SplitCall::Add) =~= calls_before + calls_of(
                m.height as nat,
            ));
            // Left of the divider and right of it nothing meets.
            assert(crate::model::between(r, e1, e2, e2, hi) =~= Set::<(int, int)>::empty()) by {
                assert forall|p: (int, int)| crate::model::between(r, e1, e2, e2, hi).contains(
                    p,
                ) implies false by {
                    let d = nn.div->0;
                    assert(r[p.0].range(this_axis).end < d);
                    assert(r[p.1].range(this_axis).start > d);
                }
            }
            crate::model::lemma_exact_in_turn(
                r,
                lo,
                e1,
                e2,
                hi,
                here@,
                below_left@,
                below_right@,
                in_left@,
                in_right@,
            );
            crate::model::lemma_shown_in_turn(
                r,
                old(func).seen(),
                seen_mid,
                func.seen(),
                entered,
                here@,
                below_left@,
                below_right@,
                in_left@,
                in_right@,
            );
            crate::model::lemma_shown_in_turn(
                ks,
                old(func).seen_keys(),
                keys_mid,
                func.seen_keys(),
                entered,
                here@,
                below_left@,
                below_right@,
                in_left@,
                in_right@,
            );
            assert(here@ + below_left@ + below_right@ + in_left@ + in_right@ == in_turn(
                here@,
                below_left@,
                below_right@,
                in_left@,
                in_right@,
            ));
        }
        Ghost(here@ + below_left@ + below_right@ + in_left@ + in_right@)
    }
}

/// A handler that can be divided among two workers and put together
/// again.
pub trait SplitHandler: CollisionHandler + Sized {
    /// Two handlers for the two workers at a fork; neither has been shown
    /// anything yet.
    fn fork(&mut self) -> (r: (Self, Self))
        requires
            old(self).inv(),
        ensures
            final(self).inv(),
            r.0.inv(),
            r.1.inv(),
            final(self).seen() == old(self).seen(),
            final(self).seen_keys() == old(self).seen_keys(),
            r.0.seen() == Seq::<(crate::geom::Rect, crate::geom::Rect)>::empty(),
            r.0.seen_keys() == Seq::<(int, int)>::empty(),
            r.1.seen() == Seq::<(crate::geom::Rect, crate::geom::Rect)>::empty(),
            r.1.seen_keys() == Seq::<(int, int)>::empty(),
    ;

    /// Takes in what the two workers' handlers were shown: first the one's,
    /// then the other's.
    fn join(&mut self, a: Self, b: Self)
        requires
            old(self).inv(),
            a.inv(),
            b.inv(),
        ensures
            final(self).inv(),
            final(self).seen() == old(self).seen() + a.seen() + b.seen(),
            final(self).seen_keys() == old(self).seen_keys() + a.seen_keys() + b.seen_keys(),
    ;
}

/// The node records at `at..at + len`, with their element ranges moved
/// down by `by` positions: the records of a subtree for a slice that
/// begins where the subtree's elements begin.
pub fn rebase(nodes: &[Node], at: usize, len: usize, by: usize) -> (out: Vec<Node>)
    requires
        at + len <= nodes@.len(),
        forall|k: int| at <= k < at + len ==> by <= (#[trigger] nodes@[k]).start <= nodes@[k].end,
    ensures
        out@.len() == len,
        forall|k: int|
            0 <= k < len ==> {
                &&& (#[trigger] out@[k]).start == nodes@[at + k].start - by
                &&& out@[k].end == nodes@[at + k].end - by
                &&& out@[k].cont == nodes@[at + k].cont
                &&& out@[k].div == nodes@[at + k].div
            },
{
    let mut out: Vec<Node> = Vec::new();
    let mut k: usize = 0;
    proof {
        vstd::slice::axiom_spec_len(nodes);
    }
    while k < len
        invariant
            k <= len,
            at + len <= nodes@.len(),
            nodes@.len() <= usize::MAX,
            forall|j: int|
                at <= j < at + len ==> by <= (#[trigger] nodes@[j]).start <= nodes@[j].end,
            out@.len() == k,
            forall|j: int|
                0 <= j < k ==> {
                    &&& (#[trigger] out@[j]).start == nodes@[at + j].start - by
                    &&& out@[j].end == nodes@[at + j].end - by
                    &&& out@[j].cont == nodes@[at + j].cont
                    &&& out@[j].div == nodes@[at + j].div
                },
        decreases len - k,
    {
        let node = &nodes[at + k];
        out.push(Node { start: node.start - by, end: node.end - by, cont: node.cont, div: node.div });
        k += 1;
    }
    out
}

/// Calls `rayon::join` on two closures, each of which makes one call of
/// [`ColFindRecurser::recurse_par`] on `recurser`: the one on the left
/// subtree with its elements, handler and splitter, the other on the right
/// subtree with its own. Trusted: `join` runs both closures to their end and returns
/// what they return, so that what `recurse_par` ensures of one call holds
/// of each of the two.
#[verifier::external_body]
fn join_subtrees<F: SplitHandler + Send, K: Splitter + Send>(
    recurser: &ColFindRecurser,
    axis: Axis,
    par_left: Parallel,
    par_right: Parallel,
    left: Vistr,
    left_elems: &mut [F::T],
    left_func: &mut F,
    left_splitter: &mut K,
    right: Vistr,
    right_elems: &mut [F::T],
    right_func: &mut F,
    right_splitter: &mut K,
) -> (r: (Ghost<Seq<(int, int)>>, Ghost<Seq<(int, int)>>)) where F::T: Send
    requires
        old(right_func).inv(),
        old(left_func).inv(),
        left.wf(crate::model::rects_of(old(left_elems)@), axis),
        left.end <= old(left_elems)@.len(),
        crate::model::all_valid(
            crate::model::rects_of(old(left_elems)@),
            0,
            old(left_elems)@.len() as int,
        ),
        right.wf(crate::model::rects_of(old(right_elems)@), axis),
        right.end <= old(right_elems)@.len(),
        crate::model::all_valid(
            crate::model::rects_of(old(right_elems)@),
            0,
            old(right_elems)@.len() as int,
        ),
    ensures
        crate::model::rects_of(final(left_elems)@) == crate::model::rects_of(old(left_elems)@),
        crate::model::keys_of(final(left_elems)@) == crate::model::keys_of(old(left_elems)@),
        final(left_func).inv(),
        final(left_func).seen() == old(left_func).seen() + crate::model::at_pairs(
            crate::model::rects_of(old(left_elems)@),
            r.0@,
        ),
        final(left_func).seen_keys() == old(left_func).seen_keys() + crate::model::at_pairs(
            crate::model::keys_of(old(left_elems)@),
            r.0@,
        ),
        crate::model::exact(
            r.0@,
            crate::model::within(
                crate::model::rects_of(old(left_elems)@),
                left.start(),
                left.end as int,
            ),
        ),
        crate::model::rects_of(final(right_elems)@) == crate::model::rects_of(old(right_elems)@),
        crate::model::keys_of(final(right_elems)@) == crate::model::keys_of(old(right_elems)@),
        final(right_func).inv(),
        final(right_func).seen() == old(right_func).seen() + crate::model::at_pairs(
            crate::model::rects_of(old(right_elems)@),
            r.1@,
        ),
        final(right_func).seen_keys() == old(right_func).seen_keys() + crate::model::at_pairs(
            crate::model::keys_of(old(right_elems)@),
            r.1@,
        ),
        crate::model::exact(
            r.1@,
            crate::model::within(
                crate::model::rects_of(old(right_elems)@),
                right.start(),
                right.end as int,
            ),
        ),
        taken_through(old(left_splitter), final(left_splitter), left.height as nat),
        taken_through(old(right_splitter), final(right_splitter), right.height as nat),
{
    rayon::join(
        || recurser.recurse_par(axis, par_left, left_func, left, left_elems, left_splitter),
        || recurser.recurse_par(axis, par_right, right_func, right, right_elems, right_splitter),
    )
}

/// Hands the two subtrees below a node to two workers: the left subtree
/// with the elements up to where the right subtree's begin, the right
/// subtree with the elements from there on and with node records moved
/// down to match. The handler is divided before and joined after.
#[verifier::rlimit(80)]
fn fork_subtrees<F: SplitHandler + Send, K: Splitter + Send>(
    recurser: &ColFindRecurser,
    axis: Axis,
    par_left: Parallel,
    par_right: Parallel,
    left: Vistr,
    right: Vistr,
    elems: &mut [F::T],
    func: &mut F,
    splitter1: &mut K,
    splitter2: &mut K,
) -> (r: (Ghost<Seq<(int, int)>>, Ghost<Seq<(int, int)>>)) where F::T: Send
    requires
        old(func).inv(),
        left.wf(crate::model::rects_of(old(elems)@), axis),
        right.wf(crate::model::rects_of(old(elems)@), axis),
        left.nodes@ == right.nodes@,
        left.bucket == right.bucket,
        left.end == right.start(),
        right.end <= old(elems)@.len(),
        crate::model::all_valid(
            crate::model::rects_of(old(elems)@),
            0,
            old(elems)@.len() as int,
        ),
    ensures
        crate::model::rects_of(final(elems)@) == crate::model::rects_of(old(elems)@),
        crate::model::keys_of(final(elems)@) == crate::model::keys_of(old(elems)@),
        final(func).inv(),
        final(func).seen() == old(func).seen() + crate::model::at_pairs(
            crate::model::rects_of(old(elems)@),
            r.0@,
        ) + crate::model::at_pairs(crate::model::rects_of(old(elems)@), r.1@),
        final(func).seen_keys() == old(func).seen_keys() + crate::model::at_pairs(
            crate::model::keys_of(old(elems)@),
            r.0@,
        ) + crate::model::at_pairs(crate::model::keys_of(old(elems)@), r.1@),
        crate::model::exact(
            r.0@,
            crate::model::within(
                crate::model::rects_of(old(elems)@),
                left.start(),
                left.end as int,
            ),
        ),
        crate::model::exact(
            r.1@,
            crate::model::within(
                crate::model::rects_of(old(elems)@),
                right.start(),
                right.end as int,
            ),
        ),
        taken_through(old(splitter1), final(splitter1), left.height as nat),
        taken_through(old(splitter2), final(splitter2), right.height as nat),
{
    let ghost r = crate::model::rects_of(elems@);
    let ghost ks = crate::model::keys_of(elems@);
    let ghost e1 = left.start();
    let ghost e2 = left.end as int;
    let ghost hi = right.end as int;
    let ghost mid_elems = elems@;
    let cut = left.end;
    proof {
        vstd::slice::axiom_spec_len(right.nodes);
        crate::model::lemma_subtree_layout(
            left.nodes@,
            r,
            left.at as int,
            left.height as nat,
            axis,
            e1,
            e2,
            left.bucket as nat,
        );
        crate::model::lemma_nodes_contiguous(
            right.nodes@,
            r,
            right.at as int,
            right.height as nat,
            axis,
            e2,
            hi,
            right.bucket as nat,
        );
        crate::model::lemma_starts_ordered(right.nodes@, right.at as int, right.at + right.len);
        assert forall|k: int| right.at <= k < right.at + right.len implies cut <= (
        #[trigger] right.nodes@[k]).start <= right.nodes@[k].end by {
            if k > right.at {
                assert(right.nodes@[right.at as int].end <= right.nodes@[k].start);
            }
        }
    }
    let right_nodes = rebase(right.nodes, right.at, right.len, cut);
    let right_m = Vistr {
        nodes: right_nodes.as_slice(),
        at: 0,
        len: right.len,
        height: right.height,
        end: right.end - cut,
        bucket: right.bucket,
    };
    let (mut func1, mut func2) = func.fork();
    let (head, tail) = elems.split_at_mut(cut);
    let ghost rh = crate::model::rects_of(head@);
    let ghost rt = crate::model::rects_of(tail@);
    proof {
        assert(head@ =~= mid_elems.subrange(0, e2));
        assert(tail@ =~= mid_elems.subrange(e2, mid_elems.len() as int));
        assert forall|i: int| 0 <= i < e2 implies #[trigger] rh[i] == r[i] by {
            assert(crate::model::rects_of(mid_elems)[i] == mid_elems[i].rect());
        }
        assert forall|i: int| e2 <= i < r.len() implies #[trigger] rt[i - e2] == r[i] by {
            assert(crate::model::rects_of(mid_elems)[i] == mid_elems[i].rect());
        }
        crate::model::lemma_subtree_wf_frame(
            left.nodes@,
            r,
            left.nodes@,
            rh,
            left.at as int,
            left.height as nat,
            axis,
            e1,
            e2,
            left.bucket as nat,
        );
        crate::model::lemma_subtree_wf_shift(
            right.nodes@,
            r,
            right.at as int,
            right_nodes@,
            rt,
            0,
            right.height as nat,
            axis,
            e2,
            hi,
            e2,
            right.bucket as nat,
        );
        assert forall|i: int| 0 <= i < rh.len() implies (#[trigger] rh[i]).valid() by {
            assert(rh[i] == r[i]);
        }
        assert forall|i: int| 0 <= i < rt.len() implies (#[trigger] rt[i]).valid() by {
            assert(rt[(i + e2) - e2] == r[i + e2]);
            assert(r[i + e2].valid());
        }
    }
    let (in_left, in_right) = join_subtrees(
        recurser,
        axis,
        par_left,
        par_right,
        left,
        head,
        &mut func1,
        splitter1,
        right_m,
        tail,
        &mut func2,
        splitter2,
    );
    let ghost seen1 = func1.seen();
    let ghost keys1 = func1.seen_keys();
    let ghost seen2 = func2.seen();
    let ghost keys2 = func2.seen_keys();
    func.join(func1, func2);
    let ghost in_right_abs = crate::model::shifted(in_right@, e2, e2);
    proof {
        lemma_fork_results(r, rh, rt, e1, e2, hi, in_left@, in_right@);
        assert(elems@ =~= head@ + tail@);
        crate::model::lemma_join_rects(mid_elems, head@, tail@, e2);
        assert(seen1 =~= crate::model::at_pairs(r, in_left@));
        crate::model::lemma_keys_of_subrange(mid_elems, 0, e2);
        crate::model::lemma_keys_of_subrange(mid_elems, e2, mid_elems.len() as int);
        lemma_fork_keys(ks, e1, e2, hi, in_left@, in_right@);
        assert(keys1 =~= crate::model::at_pairs(ks, in_left@));
        assert(seen2 =~= crate::model::at_pairs(r, in_right_abs));
        assert(keys2 =~= crate::model::at_pairs(ks, in_right_abs));
    }
    proof {
        assert(elems@ =~= head@ + tail@);
        crate::model::lemma_join_keys(mid_elems, head@, tail@, e2);
    }
    (in_left, Ghost(in_right_abs))
}

/// What two workers were shown, the one in the front part of a list and
/// the other in the rest, is what stands at those positions of the list.
proof fn lemma_fork_keys(
    ks: Seq<int>,
    e1: int,
    e2: int,
    hi: int,
    in_left: Seq<(int, int)>,
    in_right: Seq<(int, int)>,
)
    requires
        0 <= e1 <= e2 <= hi <= ks.len(),
        forall|k: int|
            0 <= k < in_left.len() ==> e1 <= (#[trigger] in_left[k]).0 < e2 && e1 <= in_left[k].1
                < e2,
        forall|k: int|
            0 <= k < in_right.len() ==> 0 <= (#[trigger] in_right[k]).0 < hi - e2 && 0
                <= in_right[k].1 < hi - e2,
    ensures
        crate::model::at_pairs(ks.subrange(0, e2), in_left) == crate::model::at_pairs(
            ks,
            in_left,
        ),
        crate::model::at_pairs(ks.subrange(e2, ks.len() as int), in_right)
            == crate::model::at_pairs(ks, crate::model::shifted(in_right, e2, e2)),
{
    assert(crate::model::at_pairs(ks.subrange(0, e2), in_left) =~= crate::model::at_pairs(
        ks,
        in_left,
    ));
    assert(crate::model::at_pairs(ks.subrange(e2, ks.len() as int), in_right)
        =~= crate::model::at_pairs(ks, crate::model::shifted(in_right, e2, e2)));
}

/// What two workers found, the one in the front part of a slice and the
/// other in the rest, is what stands at those positions of the slice.
proof fn lemma_fork_results(
    r: Seq<crate::geom::Rect>,
    rh: Seq<crate::geom::Rect>,
    rt: Seq<crate::geom::Rect>,
    e1: int,
    e2: int,
    hi: int,
    in_left: Seq<(int, int)>,
    in_right: Seq<(int, int)>,
)
    requires
        0 <= e1 <= e2 <= hi <= r.len(),
        rh.len() == e2,
        rt.len() == r.len() - e2,
        forall|i: int| 0 <= i < e2 ==> #[trigger] rh[i] == r[i],
        forall|i: int| e2 <= i < r.len() ==> #[trigger] rt[i - e2] == r[i],
        crate::model::exact(in_left, crate::model::within(rh, e1, e2)),
        crate::model::exact(in_right, crate::model::within(rt, 0, hi - e2)),
    ensures
        crate::model::exact(in_left, crate::model::within(r, e1, e2)),
        crate::model::exact(
            crate::model::shifted(in_right, e2, e2),
            crate::model::within(r, e2, hi),
        ),
        crate::model::at_pairs(rh, in_left) == crate::model::at_pairs(r, in_left),
        crate::model::at_pairs(rt, in_right) == crate::model::at_pairs(
            r,
            crate::model::shifted(in_right, e2, e2),
        ),
{
    assert(crate::model::within(rh, e1, e2) =~= crate::model::within(r, e1, e2)) by {
        assert forall|p: (int, int)| #[trigger]
            crate::model::within(rh, e1, e2).contains(p) <==> crate::model::within(
                r,
                e1,
                e2,
            ).contains(p) by {
            if e1 <= p.0 < p.1 < e2 {
                assert(rh[p.0] == r[p.0] && rh[p.1] == r[p.1]);
            }
        }
    }
    assert(crate::model::at_pairs(rh, in_left) =~= crate::model::at_pairs(r, in_left)) by {
        assert forall|k: int| 0 <= k < in_left.len() implies crate::model::at_pairs(
            rh,
            in_left,
        )[k] == crate::model::at_pairs(r, in_left)[k] by {
            let q = crate::model::norm(in_left[k]);
            assert(crate::model::within(rh, e1, e2).contains(q));
            assert(rh[q.0] == r[q.0] && rh[q.1] == r[q.1]);
        }
    }
    let rs = r.subrange(e2, hi);
    assert(crate::model::within(rt, 0, hi - e2) =~= crate::model::within(rs, 0, hi - e2)) by {
        assert forall|p: (int, int)| #[trigger]
            crate::model::within(rt, 0, hi - e2).contains(p) <==> crate::model::within(
                rs,
                0,
                hi - e2,
            ).contains(p) by {
            if 0 <= p.0 < p.1 < hi - e2 {
                assert(rt[(p.0 + e2) - e2] == r[p.0 + e2]);
                assert(rt[(p.1 + e2) - e2] == r[p.1 + e2]);
            }
        }
    }
    crate::model::lemma_within_shift(r, e2, hi, in_right);
    assert(crate::model::at_pairs(rt, in_right) =~= crate::model::at_pairs(rs, in_right)) by {
        assert forall|k: int| 0 <= k < in_right.len() implies crate::model::at_pairs(
            rt,
            in_right,
        )[k] == crate::model::at_pairs(rs, in_right)[k] by {
            let q = crate::model::norm(in_right[k]);
            assert(crate::model::within(rt, 0, hi - e2).contains(q));
            assert(rt[(q.0 + e2) - e2] == r[q.0 + e2]);
            assert(rt[(q.1 + e2) - e2] == r[q.1 + e2]);
        }
    }
}

impl ColFindRecurser {
    /// Shows the handler every pair of elements of the subtree `m` whose
    /// rectangles intersect, each pair once, as [`Self::recurse_seq`]
    /// does, with the two subtrees of a node handled by two workers as long
    /// as the policy `par` says so.
    ///
    /// The pairs of the node itself and those between it and the nodes
    /// below it are handled before the fork. At the fork the handler is
    /// divided, and what the two parts were shown is taken in afterwards.
    #[verifier::rlimit(40)]
    pub fn recurse_par<F: SplitHandler + Send, K: Splitter + Send>(
        &self,
        this_axis: Axis,
        par: Parallel,
        func: &mut F,
        m: Vistr,
        elems: &mut [F::T],
        splitter: &mut K,
    ) -> (pairs: Ghost<Seq<(int, int)>>) where F::T: Send
        requires
            old(func).inv(),
            m.wf(crate::model::rects_of(old(elems)@), this_axis),
            m.end <= old(elems)@.len(),
            crate::model::all_valid(
                crate::model::rects_of(old(elems)@),
                0,
                old(elems)@.len() as int,
            ),
        ensures
            crate::model::rects_of(final(elems)@) == crate::model::rects_of(old(elems)@),
            crate::model::keys_of(final(elems)@) == crate::model::keys_of(old(elems)@),
            final(func).inv(),
            final(func).seen() == old(func).seen() + crate::model::at_pairs(
                crate::model::rects_of(old(elems)@),
                pairs@,
            ),
            final(func).seen_keys() == old(func).seen_keys() + crate::model::at_pairs(
                crate::model::keys_of(old(elems)@),
                pairs@,
            ),
            crate::model::exact(
                pairs@,
                crate::model::within(
                    crate::model::rects_of(old(elems)@),
                    m.start(),
                    m.end as int,
                ),
            ),
            in_node_order(m, crate::model::rects_of(old(elems)@), pairs@),
            taken_through(old(splitter), final(splitter), m.height as nat),
    {
        let ghost r = crate::model::rects_of(elems@);
        let ghost ks = crate::model::keys_of(elems@);
        let ghost none: Seq<(int, int)> = Seq::empty();
        let ghost calls_before = splitter.calls();
        let mut prevec = PreVec::new();
        let (nn, rest) = m.next();
        proof {
            m.lemma_root(r, this_axis);
        }
        let (left, right) = match rest {
            None => {
                splitter.leaf_start();
                let here = handle_node(&mut prevec, func, this_axis, elems, nn.start, nn.end);
                splitter.leaf_end();
                proof {
                    assert(calls_before.push(SplitCall::LeafStart).push(SplitCall::LeafEnd)
                        =~= calls_before + calls_of(1));
                }
                return here;
            },
            Some(children) => children,
        };
        let (par_left, par_right) = match par.next() {
            ParResult::Sequential => {
                return self.recurse_seq(this_axis, &mut prevec, func, m, elems, splitter);
            },
            ParResult::Parallel(a, b) => (a, b),
        };
        let ghost lo = m.start();
        let ghost e1 = nn.end as int;
        let ghost e2 = left.end as int;
        let ghost hi = m.end as int;
        proof {
            m.lemma_children(r, this_axis);
        }
        let (mut splitter1, mut splitter2) = splitter.div();
        let here = handle_node(&mut prevec, func, this_axis, elems, nn.start, nn.end);
        let mut below_left: Ghost<Seq<(int, int)>> = Ghost(none);
        let mut below_right: Ghost<Seq<(int, int)>> = Ghost(none);
        let mut entered = false;
        if nn.div.is_some() {
            if let Some(anchor) = DestructuredNode::new(this_axis, nn) {
                let g = InnerRecurser::new(anchor);
                below_left = g.recurse(this_axis.next(), left, elems, &mut prevec, func);
                below_right = g.recurse(this_axis.next(), right, elems, &mut prevec, func);
                entered = true;
            }
        }
        proof {
            if !entered {
                assert(crate::model::between(r, lo, e1, e1, e2) =~= Set::<(int, int)>::empty());
                assert(crate::model::between(r, lo, e1, e2, hi) =~= Set::<(int, int)>::empty());
            }
        }
        let ghost seen_mid = func.seen();
        let ghost keys_mid = func.seen_keys();
        let (in_left, in_right) = fork_subtrees(
            self,
            this_axis.next(),
            par_left,
            par_right,
            left,
            right,
            elems,
            func,
            &mut splitter1,
            &mut splitter2,
        );
        splitter.add(splitter1, splitter2);
        proof {
            let below = calls_of((m.height - 1) as nat);
            assert((calls_before.push(SplitCall::Div) + (Seq::<SplitCall>::empty() + below) + (
            Seq::<SplitCall>::empty() + below)).push(SplitCall::Add) =~= calls_before + calls_of(
                m.height as nat,
            ));
            // Left of the divider and right of it nothing meets.
            assert(crate::model::between(r, e1, e2, e2, hi) =~= Set::<(int, int)>::empty()) by {
                assert forall|p: (int, int)| crate::model::between(r, e1, e2, e2, hi).contains(
                    p,
                ) implies false by {
                    let d = nn.div->0;
                    assert(r[p.0].range(this_axis).end < d);
                    assert(r[p.1].range(this_axis).start > d);
                }
            }
            crate::model::lemma_exact_in_turn(
                r,
                lo,
                e1,
                e2,
                hi,
                here@,
                below_left@,
                below_right@,
                in_left@,
                in_right@,
            );
            crate::model::lemma_shown_in_turn(
                r,
                old(func).seen(),
                seen_mid,
                func.seen(),
                entered,
                here@,
                below_left@,
                below_right@,
                in_left@,
                in_right@,
            );
            crate::model::lemma_shown_in_turn(
                ks,
                old(func).seen_keys(),
                keys_mid,
                func.seen_keys(),
                entered,
                here@,
                below_left@,
                below_right@,
                in_left@,
                in_right@,
            );
            assert(here@ + below_left@ + below_right@ + in_left@ + in_right@ == in_turn(
                here@,
                below_left@,
                below_right@,
                in_left@,
                in_right@,
            ));
        }
        Ghost(here@ + below_left@ + below_right@ + in_left@ + in_right@)
    }
}

/// A handler made of a function that may change as it is called. The
/// function is given, of each of the two elements, the rectangle to read
/// and the payload to write.
pub struct QueryFnMut<T, F> {
    func: F,
    seen: Ghost<Seq<(Rect, Rect)>>,
    seen_keys: Ghost<Seq<(int, int)>>,
    _p: PhantomData<T>,
}

impl<T: HasInner, F: FnMut(&Rect, &mut T::Inner, &Rect, &mut T::Inner)> QueryFnMut<T, F> {
    /// The function inside.
    pub closed spec fn func(&self) -> F {
        self.func
    }

    /// A handler that shows each pair to `func`.
    pub fn new(func: F) -> (r: QueryFnMut<T, F>)
        ensures
            r.func() == func,
            r.seen() == Seq::<(Rect, Rect)>::empty(),
            r.seen_keys() == Seq::<(int, int)>::empty(),
            (forall|ra: &Rect, a: &mut T::Inner, rb: &Rect, b: &mut T::Inner| #[trigger]
                call_requires(func, (ra, a, rb, b))) ==> r.inv(),
    {
        QueryFnMut { func, seen: Ghost(Seq::empty()), seen_keys: Ghost(Seq::empty()), _p: PhantomData }
    }
}

impl<T: HasInner, F: FnMut(&Rect, &mut T::Inner, &Rect, &mut T::Inner)> CollisionHandler for QueryFnMut<
    T,
    F,
> {
    type T = T;

    closed spec fn seen(&self) -> Seq<(Rect, Rect)> {
        self.seen@
    }

    closed spec fn seen_keys(&self) -> Seq<(int, int)> {
        self.seen_keys@
    }

    /// The function takes any two rectangles and payloads.
    closed spec fn inv(&self) -> bool {
        forall|ra: &Rect, a: &mut T::Inner, rb: &Rect, b: &mut T::Inner| #[trigger]
            call_requires(self.func, (ra, a, rb, b))
    }

    fn collide(&mut self, a: PMut<T>, b: PMut<T>) {
        let ghost ra = a.target().rect();
        let ghost ksa = a.target().key();
        let ghost rb = b.target().rect();
        let ghost ksb = b.target().key();
        let (rect_a, inner_a) = a.unpack();
        let (rect_b, inner_b) = b.unpack();
        (self.func)(rect_a, inner_a, rect_b, inner_b);
        self.seen = Ghost(self.seen@.push((ra, rb)));
        self.seen_keys = Ghost(self.seen_keys@.push((ksa, ksb)));
    }
}

/// A handler made of a function that stays as it is and can be copied for
/// every worker. The function is given, of each of the two elements, the
/// rectangle to read and the payload to write.
pub struct QueryFn<T, F> {
    func: F,
    seen: Ghost<Seq<(Rect, Rect)>>,
    seen_keys: Ghost<Seq<(int, int)>>,
    _p: PhantomData<T>,
}

impl<T: HasInner, F: Fn(&Rect, &mut T::Inner, &Rect, &mut T::Inner) + Copy> QueryFn<T, F> {
    /// The function inside.
    pub closed spec fn func(&self) -> F {
        self.func
    }

    /// A handler that shows each pair to `func`.
    pub fn new(func: F) -> (r: QueryFn<T, F>)
        ensures
            r.func() == func,
            r.seen() == Seq::<(Rect, Rect)>::empty(),
            r.seen_keys() == Seq::<(int, int)>::empty(),
            (forall|ra: &Rect, a: &mut T::Inner, rb: &Rect, b: &mut T::Inner| #[trigger]
                call_requires(func, (ra, a, rb, b))) ==> r.inv(),
    {
        QueryFn { func, seen: Ghost(Seq::empty()), seen_keys: Ghost(Seq::empty()), _p: PhantomData }
    }
}

impl<T: HasInner, F: Fn(&Rect, &mut T::Inner, &Rect, &mut T::Inner) + Copy> CollisionHandler for QueryFn<
    T,
    F,
> {
    type T = T;

    closed spec fn seen(&self) -> Seq<(Rect, Rect)> {
        self.seen@
    }

    closed spec fn seen_keys(&self) -> Seq<(int, int)> {
        self.seen_keys@
    }

    /// The function takes any two rectangles and payloads.
    closed spec fn inv(&self) -> bool {
        forall|ra: &Rect, a: &mut T::Inner, rb: &Rect, b: &mut T::Inner| #[trigger]
            call_requires(self.func, (ra, a, rb, b))
    }

    fn collide(&mut self, a: PMut<T>, b: PMut<T>) {
        let ghost ra = a.target().rect();
        let ghost ksa = a.target().key();
        let ghost rb = b.target().rect();
        let ghost ksb = b.target().key();
        let (rect_a, inner_a) = a.unpack();
        let (rect_b, inner_b) = b.unpack();
        (self.func)(rect_a, inner_a, rect_b, inner_b);
        self.seen = Ghost(self.seen@.push((ra, rb)));
        self.seen_keys = Ghost(self.seen_keys@.push((ksa, ksb)));
    }
}

impl<T: HasInner, F: Fn(&Rect, &mut T::Inner, &Rect, &mut T::Inner) + Copy> SplitHandler for QueryFn<
    T,
    F,
> {
    fn fork(&mut self) -> (r: (Self, Self)) {
        (
            QueryFn {
                func: self.func,
                seen: Ghost(Seq::empty()),
                seen_keys: Ghost(Seq::empty()),
                _p: PhantomData,
            },
            QueryFn {
                func: self.func,
                seen: Ghost(Seq::empty()),
                seen_keys: Ghost(Seq::empty()),
                _p: PhantomData,
            },
        )
    }

    fn join(&mut self, a: Self, b: Self) {
        self.seen = Ghost(self.seen@ + a.seen@ + b.seen@);
        self.seen_keys = Ghost(self.seen_keys@ + a.seen_keys@ + b.seen_keys@);
    }
}

} // verus!
