//! The tree: a complete binary tree of nodes in pre-order over a slice of
//! elements.

use vstd::prelude::*;
use compt::dfs_order::{CompleteTreeContainer, PreOrder};
use compt::NotCompleteTreeSizeErr;
use crate::geom::{Axis, Rect};
use crate::node::{Aabb, Node, NodeMut};
use crate::pmut::PMut;
use crate::query::colfind::inner::{ColFindRecurser, SplitHandler, SplitterEmpty};
use crate::tree::par::{default_policy, Parallel};
use crate::query::colfind::CollisionHandler;
use crate::tree::builder::TreeBuilder;
use crate::util::PreVec;

pub mod analyze;
pub mod builder;
pub mod collections;
pub mod par;

verus! {

/// A position in a tree's node array: the subtree that starts there.
///
/// The nodes of a subtree are stored in pre-order: its root, then the left
/// subtree, then the right subtree.
#[derive(Clone, Copy)]
pub struct Vistr<'a> {
    /// The nodes of the whole tree.
    pub nodes: &'a [Node],
    /// Where the root of this subtree stands in `nodes`.
    pub at: usize,
    /// The number of nodes of this subtree.
    pub len: usize,
    /// The number of levels of this subtree.
    pub height: usize,
    /// Where the elements of this subtree end in the element slice.
    pub end: usize,
    /// The number of elements up to which a node was not divided.
    pub bucket: usize,
}

impl<'a> Vistr<'a> {
    /// The subtree is a well-formed tree over the rectangles `r`, divided
    /// along `axis` at its root.
    pub open spec fn wf(self, r: Seq<Rect>, axis: Axis) -> bool {
        &&& self.height >= 1
        &&& self.len == crate::model::subtree_len(self.height as nat)
        &&& self.at + self.len <= self.nodes@.len()
        &&& crate::model::subtree_wf(
            self.nodes@,
            r,
            self.at as int,
            self.height as nat,
            axis,
            self.nodes@[self.at as int].start as int,
            self.end as int,
            self.bucket as nat,
        )
    }

    /// Where the elements of this subtree start in the element slice.
    pub open spec fn start(self) -> int {
        self.nodes@[self.at as int].start as int
    }

    /// The subtree below the root on the left.
    pub open spec fn left(self) -> Vistr<'a> {
        Vistr {
            nodes: self.nodes,
            at: (self.at + 1) as usize,
            len: ((self.len - 1) / 2) as usize,
            height: (self.height - 1) as usize,
            end: self.nodes@[self.at + 1 + (self.len - 1) / 2].start,
            bucket: self.bucket,
        }
    }

    /// The subtree below the root on the right.
    pub open spec fn right(self) -> Vistr<'a> {
        Vistr {
            nodes: self.nodes,
            at: (self.at + 1 + (self.len - 1) / 2) as usize,
            len: ((self.len - 1) / 2) as usize,
            height: (self.height - 1) as usize,
            end: self.end,
            bucket: self.bucket,
        }
    }

    /// What well-formedness says of the root of the subtree.
    pub proof fn lemma_root(self, r: Seq<Rect>, axis: Axis)
        requires
            self.wf(r, axis),
        ensures
            ({
                let n = self.nodes@[self.at as int];
                &&& 0 <= n.start <= n.end <= self.end <= r.len()
                &&& crate::model::sorted_by_key(r, axis, n.start as int, n.end as int)
                &&& crate::model::sorted_by_start(r, axis, n.start as int, n.end as int)
                &&& crate::model::is_cont(r, axis, n.start as int, n.end as int, n.cont)
                &&& self.height == 1 ==> n.end == self.end && n.div is None
                &&& n.div is None ==> n.end == self.end
                &&& self.height > 1 ==> (n.div is None <==> self.end - n.start <= self.bucket)
                &&& n.div matches Some(d) ==> crate::model::is_median_start(
                    r,
                    axis,
                    n.start as int,
                    self.end as int,
                    d as int,
                )
                &&& n.div matches Some(d) ==> {
                    &&& forall|i: int|
                        n.start <= i < n.end ==> (#[trigger] r[i]).range(axis).has(d as int)
                    &&& forall|i: int|
                        n.end <= i < self.left().end ==> (#[trigger] r[i]).range(axis).end < d
                    &&& forall|i: int|
                        self.left().end <= i < self.end ==> (#[trigger] r[i]).range(axis).start > d
                }
            }),
    {
        crate::model::lemma_subtree_len_pos(self.height as nat);
        if self.height > 1 {
            let h1 = (self.height - 1) as nat;
            assert(crate::model::subtree_len(h1) == (self.len - 1) / 2);
        }
        let n = self.nodes@[self.at as int];
        crate::model::lemma_sorted_by_key(r, axis, n.start as int, n.end as int);
    }

    /// The children of a well-formed subtree are well-formed on the other
    /// axis, and their elements follow those of the root: first the left
    /// subtree's, then the right subtree's.
    pub proof fn lemma_children(self, r: Seq<Rect>, axis: Axis)
        requires
            self.wf(r, axis),
            self.height > 1,
        ensures
            self.left().wf(r, axis.other()),
            self.right().wf(r, axis.other()),
            self.left().start() == self.nodes@[self.at as int].end,
            self.left().end == self.right().start(),
            self.nodes@[self.at as int].end <= self.left().end <= self.end,
    {
        reveal_with_fuel(crate::model::subtree_wf, 2);
        vstd::slice::axiom_spec_len(self.nodes);
        let h1 = (self.height - 1) as nat;
        crate::model::lemma_subtree_len_pos(self.height as nat);
        assert(crate::model::subtree_len(h1) == (self.len - 1) / 2);
        assert(h1 >= 1);
        crate::model::lemma_subtree_len_pos(h1);
        let n = self.nodes@[self.at as int];
        let right = self.at + 1 + crate::model::subtree_len(h1);
        let mid = self.nodes@[right].start as int;
        assert(crate::model::subtree_wf(
            self.nodes@,
            r,
            self.at + 1,
            h1,
            axis.other(),
            n.end as int,
            mid,
            self.bucket as nat,
        ));
        assert(crate::model::subtree_wf(
            self.nodes@,
            r,
            right,
            h1,
            axis.other(),
            mid,
            self.end as int,
            self.bucket as nat,
        ));
        assert(self.nodes@[self.at + 1].start == n.end);
        assert(self.nodes@[right].start == mid);
    }

    /// The root of the subtree and, unless it is a leaf, its two subtrees.
    pub fn next(self) -> (r: (&'a Node, Option<(Vistr<'a>, Vistr<'a>)>))
        requires
            self.height >= 1,
            self.len == crate::model::subtree_len(self.height as nat),
            self.at + self.len <= self.nodes@.len(),
        ensures
            *r.0 == self.nodes@[self.at as int],
            self.height == 1 ==> r.1 is None,
            self.height > 1 ==> r.1 == Some((self.left(), self.right())),
    {
        proof {
            crate::model::lemma_subtree_len_pos(self.height as nat);
        }
        let node = &self.nodes[self.at];
        if self.height == 1 {
            (node, None)
        } else {
            let half = (self.len - 1) / 2;
            let right_at = self.at + 1 + half;
            proof {
                crate::model::lemma_subtree_len_pos((self.height - 1) as nat);
            }
            let left = Vistr {
                nodes: self.nodes,
                at: self.at + 1,
                len: half,
                height: self.height - 1,
                end: self.nodes[right_at].start,
                bucket: self.bucket,
            };
            let right = Vistr {
                nodes: self.nodes,
                at: right_at,
                len: half,
                height: self.height - 1,
                end: self.end,
                bucket: self.bucket,
            };
            (node, Some((left, right)))
        }
    }
}

/// The outside container of a complete binary tree in depth-first order.
#[verifier::external_type_specification]
#[verifier::external_body]
#[verifier::reject_recursive_types(T)]
#[verifier::reject_recursive_types(D)]
pub struct ExCompleteTreeContainer<T, D>(CompleteTreeContainer<T, D>);

/// The outside marker of the pre-order layout.
#[verifier::external_type_specification]
#[verifier::external_body]
pub struct ExPreOrder(PreOrder);

/// The outside error for a number of nodes that no complete tree has.
#[verifier::external_type_specification]
#[verifier::external_body]
pub struct ExNotCompleteTreeSizeErr(NotCompleteTreeSizeErr);

/// The nodes that a container holds, in the order in which it was given
/// them.
pub uninterp spec fn container_nodes(c: CompleteTreeContainer<Node, PreOrder>) -> Seq<Node>;

/// Calls `CompleteTreeContainer::from_preorder`. Trusted: the container
/// is made exactly when the number of nodes is not zero and is one less
/// than a power of two, and it then holds the nodes as given.
#[verifier::external_body]
pub(crate) fn container_from_preorder(
    nodes: Vec<Node>,
) -> (r: Result<CompleteTreeContainer<Node, PreOrder>, NotCompleteTreeSizeErr>)
    ensures
        r.is_ok() == (nodes@.len() != 0 && vstd::arithmetic::power2::is_pow2((nodes@.len() + 1) as int)),
        r.is_ok() ==> container_nodes(r.unwrap()) == nodes@,
{
    CompleteTreeContainer::from_preorder(nodes)
}

/// Calls `CompleteTreeContainer::as_tree` and `CompleteTree::get_nodes`.
/// Trusted: the slice holds the nodes of the container.
#[verifier::external_body]
pub(crate) fn container_get_nodes(c: &CompleteTreeContainer<Node, PreOrder>) -> (r: &[Node])
    ensures
        r@ == container_nodes(*c),
{
    c.as_tree().get_nodes()
}

/// A complete tree of `height` levels has one node less than two to the
/// power of `height`.
pub proof fn lemma_subtree_len_pow2(height: nat)
    ensures
        crate::model::subtree_len(height) + 1 == vstd::arithmetic::power2::pow2(height),
        vstd::arithmetic::power2::is_pow2((crate::model::subtree_len(height) + 1) as int),
    decreases height,
{
    vstd::arithmetic::power2::lemma2_to64();
    if height > 0 {
        lemma_subtree_len_pow2((height - 1) as nat);
        vstd::arithmetic::power2::lemma_pow2_unfold(height);
    }
    vstd::arithmetic::power2::lemma_pow2(height);
    let n = crate::model::subtree_len(height) + 1;
    assert(vstd::arithmetic::power2::is_pow2_exists(n as int)) by {
        assert(vstd::arithmetic::power::pow(2, height) == n);
    }
    vstd::arithmetic::power2::is_pow2_equiv(n as int);
}

/// A tree over a slice of elements that it borrows for as long as it
/// lives. Building it reorders the slice; no query does.
pub struct Tree<'a, T: Aabb> {
    pub(crate) axis: Axis,
    pub(crate) height: usize,
    pub(crate) bucket: usize,
    pub(crate) inner: CompleteTreeContainer<Node, PreOrder>,
    pub(crate) bots: &'a mut [T],
}

/// The axis along which the root of a tree is divided unless the caller
/// chooses: the y axis, so that the first divider is a horizontal line.
pub fn default_axis() -> (r: Axis)
    ensures
        r == Axis::Y,
{
    Axis::Y
}

impl<'a, T: Aabb> Tree<'a, T> {
    /// The axis along which the root is divided.
    pub open(crate) spec fn axis(&self) -> Axis {
        self.axis
    }

    /// The number of levels.
    pub open(crate) spec fn levels(&self) -> nat {
        self.height as nat
    }

    /// The number of elements up to which a node was not divided.
    pub open(crate) spec fn bucket(&self) -> nat {
        self.bucket as nat
    }

    /// The nodes, in pre-order.
    pub open(crate) spec fn nodes(&self) -> Seq<Node> {
        container_nodes(self.inner)
    }

    /// The elements as they stand in the slice now.
    pub open(crate) spec fn elements(&self) -> Seq<T> {
        self.bots@
    }

    /// The borrowed slice.
    pub open(crate) spec fn target(self) -> &'a mut [T] {
        self.bots
    }

    /// The rectangles of the elements.
    pub open spec fn rects(&self) -> Seq<Rect> {
        crate::model::rects_of(self.elements())
    }

    /// The keys of the elements: which element stands where.
    pub open spec fn keys(&self) -> Seq<int> {
        crate::model::keys_of(self.elements())
    }

    /// The invariants of a tree: the node array is a complete tree in
    /// pre-order whose nodes partition the slice, each node's elements are
    /// sorted and spanned by its `cont`, elements stand at the node whose
    /// divider they contain, and every rectangle is valid.
    pub open spec fn wf(&self) -> bool {
        &&& 1 <= self.levels() <= crate::tree::analyze::HEIGHT_LIMIT
        &&& self.nodes().len() == crate::model::subtree_len(self.levels())
        &&& crate::model::subtree_wf(
            self.nodes(),
            self.rects(),
            0,
            self.levels(),
            self.axis(),
            0,
            self.elements().len() as int,
            self.bucket(),
        )
        &&& crate::model::all_valid(self.rects(), 0, self.elements().len() as int)
    }

    /// The element at position `i` stands at the node at `k`.
    pub open spec fn stands_at(&self, i: int, k: int) -> bool {
        0 <= k < self.nodes().len() && self.nodes()[k].start <= i < self.nodes()[k].end
    }

    /// The nodes partition the slice: their element ranges follow one
    /// another without gap or overlap, in pre-order, from the first element
    /// to the last.
    pub proof fn lemma_partition(&self)
        requires
            self.wf(),
        ensures
            self.nodes()[0].start == 0,
            self.nodes()[self.nodes().len() - 1].end == self.elements().len(),
            forall|k: int|
                0 <= k < self.nodes().len() ==> (#[trigger] self.nodes()[k]).start
                    <= self.nodes()[k].end,
            forall|k: int|
                0 <= k < self.nodes().len() - 1 ==> (#[trigger] self.nodes()[k]).end
                    == self.nodes()[k + 1].start,
    {
        let nodes = self.nodes();
        let len = crate::model::subtree_len(self.levels()) as int;
        assert(nodes.len() == len);
        crate::model::lemma_nodes_contiguous(
            nodes,
            self.rects(),
            0,
            self.levels(),
            self.axis(),
            0,
            self.elements().len() as int,
            self.bucket(),
        );
    }

    /// Every element stands at exactly one node.
    pub proof fn lemma_one_node(&self, i: int) -> (k: int)
        requires
            self.wf(),
            0 <= i < self.elements().len(),
        ensures
            self.stands_at(i, k),
            forall|k2: int| self.stands_at(i, k2) ==> k2 == k,
    {
        let nodes = self.nodes();
        let len = crate::model::subtree_len(self.levels()) as int;
        assert(nodes.len() == len);
        let k = crate::model::lemma_one_node_per_position(
            nodes,
            self.rects(),
            0,
            self.levels(),
            self.axis(),
            0,
            self.elements().len() as int,
            self.bucket(),
            i,
        );
        assert forall|k2: int| self.stands_at(i, k2) implies k2 == k by {
            assert(nodes[k2].start <= i < nodes[k2].end);
        }
        k
    }

    pub fn get_axis(&self) -> (r: Axis)
        ensures
            r == self.axis(),
    {
        self.axis
    }

    #[must_use]
    pub fn get_height(&self) -> (r: usize)
        ensures
            r == self.levels(),
    {
        self.height
    }

    #[must_use]
    pub fn num_nodes(&self) -> (r: usize)
        ensures
            r == self.nodes().len(),
    {
        container_get_nodes(&self.inner).len()
    }

    pub fn get_nodes(&self) -> (r: &[Node])
        ensures
            r@ == self.nodes(),
    {
        container_get_nodes(&self.inner)
    }

    /// The elements in the order in which the tree holds them.
    pub fn get_elements(&self) -> (r: &[T])
        ensures
            r@ == self.elements(),
    {
        &*self.bots
    }

    /// The elements, protected: payloads can be written through the
    /// result, rectangles cannot.
    pub fn get_elements_mut(&mut self) -> (r: PMut<[T]>)
        ensures
            r.target()@ == old(self).elements(),
            final(self).elements() == final(r.target())@,
            final(self).nodes() == old(self).nodes(),
            final(self).axis() == old(self).axis(),
            final(self).levels() == old(self).levels(),
            final(self).bucket() == old(self).bucket(),
            final(final(self).target())@ == final(old(self).target())@,
    {
        PMut::new(&mut *self.bots)
    }

    /// The node at `index` with its elements, protected.
    pub fn get_node_mut(&mut self, index: usize) -> (r: NodeMut<'_, T>)
        requires
            old(self).wf(),
            index < old(self).nodes().len(),
        ensures
            r.cont == old(self).nodes()[index as int].cont,
            r.div == old(self).nodes()[index as int].div,
            r.range.target()@ == old(self).elements().subrange(
                old(self).nodes()[index as int].start as int,
                old(self).nodes()[index as int].end as int,
            ),
            final(self).elements() == old(self).elements().subrange(
                0,
                old(self).nodes()[index as int].start as int,
            ) + final(r.range.target())@ + old(self).elements().subrange(
                old(self).nodes()[index as int].end as int,
                old(self).elements().len() as int,
            ),
            final(self).nodes() == old(self).nodes(),
            final(self).axis() == old(self).axis(),
            final(self).levels() == old(self).levels(),
            final(self).bucket() == old(self).bucket(),
            final(final(self).target())@ == final(old(self).target())@,
    {
        proof {
            self.lemma_partition();
            let nodes = self.nodes();
            crate::model::lemma_starts_ordered(nodes, 0, nodes.len() as int);
            if index < nodes.len() - 1 {
                assert(nodes[index as int].end <= nodes[nodes.len() - 1].start);
            }
        }
        let node = container_get_nodes(&self.inner)[index];
        let range = crate::query::tools::range_mut(&mut *self.bots, node.start, node.end);
        NodeMut { range, cont: node.cont, div: node.div }
    }

    /// Takes the tree apart and ends the borrow: the slice stays as the
    /// tree holds it now.
    pub(crate) fn into_parts(self) -> (r: (Axis, usize, usize, CompleteTreeContainer<Node, PreOrder>))
        ensures
            r.0 == self.axis(),
            r.1 == self.levels(),
            r.2 == self.bucket(),
            container_nodes(r.3) == self.nodes(),
            final(self.target())@ == self.elements(),
    {
        let Tree { axis, height, bucket, inner, bots: _ } = self;
        (axis, height, bucket, inner)
    }

    /// Ends the borrow: the slice stays as the tree holds it now.
    pub fn into_elements(self) -> (r: &'a mut [T])
        ensures
            r@ == self.elements(),
            final(r)@ == final(self.target())@,
    {
        self.bots
    }

    /// The whole tree as a subtree.
    pub fn vistr(&self) -> (r: Vistr)
        requires
            self.wf(),
        ensures
            r.wf(self.rects(), self.axis()),
            r.nodes@ == self.nodes(),
            r.at == 0,
            r.height == self.levels(),
            r.end == self.elements().len(),
            r.bucket == self.bucket(),
            r.start() == 0,
    {
        let nodes = container_get_nodes(&self.inner);
        let len = nodes.len();
        Vistr {
            nodes,
            at: 0,
            len,
            height: self.height,
            end: self.bots.len(),
            bucket: self.bucket,
        }
    }

    /// Shows the handler every pair of elements whose rectangles
    /// intersect, each unordered pair once, and leaves every element in
    /// its place with its rectangle.
    pub fn find_colliding_pairs_mut<F: CollisionHandler<T = T>>(&mut self, func: &mut F)
        requires
            old(func).inv(),
            old(self).wf(),
        ensures
            final(self).wf(),
            final(self).rects() == old(self).rects(),
            final(self).keys() == old(self).keys(),
            final(self).nodes() == old(self).nodes(),
            final(self).axis() == old(self).axis(),
            final(self).levels() == old(self).levels(),
            final(self).bucket() == old(self).bucket(),
            final(final(self).target())@ == final(old(self).target())@,
            exists|pairs: Seq<(int, int)>|
                {
                    &&& crate::model::exact(
                        pairs,
                        crate::model::within(
                            old(self).rects(),
                            0,
                            old(self).rects().len() as int,
                        ),
                    )
                    &&& final(func).inv()
                    &&& final(func).seen() == old(func).seen() + crate::model::at_pairs(
                        old(self).rects(),
                        pairs,
                    )
                    &&& final(func).seen_keys() == old(func).seen_keys() + crate::model::at_pairs(
                        old(self).keys(),
                        pairs,
                    )
                },
    {
        let mut prevec = PreVec::new();
        let mut splitter = SplitterEmpty;
        let nodes = container_get_nodes(&self.inner);
        let len = nodes.len();
        let m = Vistr {
            nodes,
            at: 0,
            len,
            height: self.height,
            end: self.bots.len(),
            bucket: self.bucket,
        };
        let recurser = ColFindRecurser::new();
        let pairs = recurser.recurse_seq(
            self.axis,
            &mut prevec,
            func,
            m,
            &mut *self.bots,
            &mut splitter,
        );
        proof {
            assert(crate::model::exact(
                pairs@,
                crate::model::within(old(self).rects(), 0, old(self).rects().len() as int),
            ));
        }
    }
}

impl<'a, T: Aabb + Send> Tree<'a, T> {
    /// Shows the handler every pair of elements whose rectangles
    /// intersect, each unordered pair once, as
    /// [`Tree::find_colliding_pairs_mut`] does, with the subtrees divided
    /// among the workers of the pool down to the depth that fits their
    /// number. The pairs are those of a sequential run; their order is
    /// not.
    pub fn find_colliding_pairs_mut_par<F: SplitHandler<T = T> + Send>(&mut self, func: &mut F)
        requires
            old(self).wf(),
            old(func).inv(),
        ensures
            final(self).wf(),
            final(self).rects() == old(self).rects(),
            final(self).keys() == old(self).keys(),
            final(self).nodes() == old(self).nodes(),
            final(self).axis() == old(self).axis(),
            final(self).levels() == old(self).levels(),
            final(self).bucket() == old(self).bucket(),
            final(final(self).target())@ == final(old(self).target())@,
            final(func).inv(),
            exists|pairs: Seq<(int, int)>|
                {
                    &&& crate::model::exact(
                        pairs,
                        crate::model::within(
                            old(self).rects(),
                            0,
                            old(self).rects().len() as int,
                        ),
                    )
                    &&& final(func).seen() == old(func).seen() + crate::model::at_pairs(
                        old(self).rects(),
                        pairs,
                    )
                    &&& final(func).seen_keys() == old(func).seen_keys() + crate::model::at_pairs(
                        old(self).keys(),
                        pairs,
                    )
                },
    {
        self.find_colliding_pairs_mut_par_ext(default_policy(), func)
    }

    /// As [`Tree::find_colliding_pairs_mut_par`], with the policy `par`
    /// in place of the default.
    pub fn find_colliding_pairs_mut_par_ext<F: SplitHandler<T = T> + Send>(
        &mut self,
        par: Parallel,
        func: &mut F,
    )
        requires
            old(self).wf(),
            old(func).inv(),
        ensures
            final(self).wf(),
            final(self).rects() == old(self).rects(),
            final(self).keys() == old(self).keys(),
            final(self).nodes() == old(self).nodes(),
            final(self).axis() == old(self).axis(),
            final(self).levels() == old(self).levels(),
            final(self).bucket() == old(self).bucket(),
            final(final(self).target())@ == final(old(self).target())@,
            final(func).inv(),
            exists|pairs: Seq<(int, int)>|
                {
                    &&& crate::model::exact(
                        pairs,
                        crate::model::within(
                            old(self).rects(),
                            0,
                            old(self).rects().len() as int,
                        ),
                    )
                    &&& final(func).seen() == old(func).seen() + crate::model::at_pairs(
                        old(self).rects(),
                        pairs,
                    )
                    &&& final(func).seen_keys() == old(func).seen_keys() + crate::model::at_pairs(
                        old(self).keys(),
                        pairs,
                    )
                },
    {
        let mut splitter = SplitterEmpty;
        let nodes = container_get_nodes(&self.inner);
        let len = nodes.len();
        let m = Vistr {
            nodes,
            at: 0,
            len,
            height: self.height,
            end: self.bots.len(),
            bucket: self.bucket,
        };
        let recurser = ColFindRecurser::new();
        let pairs = recurser.recurse_par(
            self.axis,
            par,
            func,
            m,
            &mut *self.bots,
            &mut splitter,
        );
        proof {
            assert(crate::model::exact(
                pairs@,
                crate::model::within(old(self).rects(), 0, old(self).rects().len() as int),
            ));
        }
    }
}

/// Builds a tree over `bots` with the default axis and the height that the
/// heuristic gives.
pub fn new<'a, T: Aabb>(bots: &'a mut [T]) -> (tree: Tree<'a, T>)
    requires
        crate::model::all_valid(
            crate::model::rects_of(old(bots)@),
            0,
            old(bots)@.len() as int,
        ),
    ensures
        tree.wf(),
        tree.axis() == Axis::Y,
        tree.levels() == crate::tree::analyze::height_heuristic(
            old(bots)@.len(),
            crate::tree::analyze::DEFAULT_NUMBER_ELEM_PER_NODE as nat,
            crate::tree::analyze::MAX_HEIGHT as nat,
        ),
        1 <= tree.levels() <= crate::tree::analyze::MAX_HEIGHT,
        tree.bucket() == crate::tree::analyze::DEFAULT_NUMBER_ELEM_PER_NODE,
        tree.elements().to_multiset() == old(bots)@.to_multiset(),
        final(tree.target())@ == final(bots)@,
{
    TreeBuilder::new(bots).build_seq()
}

/// Builds a tree over `bots` as [`new`] does, with the workers of the
/// pool.
pub fn new_par<'a, T: Aabb + Send>(bots: &'a mut [T]) -> (tree: Tree<'a, T>)
    requires
        crate::model::all_valid(
            crate::model::rects_of(old(bots)@),
            0,
            old(bots)@.len() as int,
        ),
    ensures
        tree.wf(),
        tree.axis() == Axis::Y,
        tree.levels() == crate::tree::analyze::height_heuristic(
            old(bots)@.len(),
            crate::tree::analyze::DEFAULT_NUMBER_ELEM_PER_NODE as nat,
            crate::tree::analyze::MAX_HEIGHT as nat,
        ),
        1 <= tree.levels() <= crate::tree::analyze::MAX_HEIGHT,
        tree.bucket() == crate::tree::analyze::DEFAULT_NUMBER_ELEM_PER_NODE,
        tree.elements().to_multiset() == old(bots)@.to_multiset(),
        final(tree.target())@ == final(bots)@,
{
    TreeBuilder::new(bots).build_par()
}

/// Builds a tree over `bots` as [`with_axis`] does, with the workers of
/// the pool.
pub fn with_axis_par<'a, T: Aabb + Send>(axis: Axis, bots: &'a mut [T]) -> (tree: Tree<'a, T>)
    requires
        crate::model::all_valid(
            crate::model::rects_of(old(bots)@),
            0,
            old(bots)@.len() as int,
        ),
    ensures
        tree.wf(),
        tree.axis() == axis,
        tree.levels() == crate::tree::analyze::height_heuristic(
            old(bots)@.len(),
            crate::tree::analyze::DEFAULT_NUMBER_ELEM_PER_NODE as nat,
            crate::tree::analyze::MAX_HEIGHT as nat,
        ),
        1 <= tree.levels() <= crate::tree::analyze::MAX_HEIGHT,
        tree.bucket() == crate::tree::analyze::DEFAULT_NUMBER_ELEM_PER_NODE,
        tree.elements().to_multiset() == old(bots)@.to_multiset(),
        final(tree.target())@ == final(bots)@,
{
    TreeBuilder::with_axis(axis, bots).build_par()
}

/// Builds a tree over `bots` whose root is divided along `axis`.
pub fn with_axis<'a, T: Aabb>(axis: Axis, bots: &'a mut [T]) -> (tree: Tree<'a, T>)
    requires
        crate::model::all_valid(
            crate::model::rects_of(old(bots)@),
            0,
            old(bots)@.len() as int,
        ),
    ensures
        tree.wf(),
        tree.axis() == axis,
        tree.levels() == crate::tree::analyze::height_heuristic(
            old(bots)@.len(),
            crate::tree::analyze::DEFAULT_NUMBER_ELEM_PER_NODE as nat,
            crate::tree::analyze::MAX_HEIGHT as nat,
        ),
        1 <= tree.levels() <= crate::tree::analyze::MAX_HEIGHT,
        tree.bucket() == crate::tree::analyze::DEFAULT_NUMBER_ELEM_PER_NODE,
        tree.elements().to_multiset() == old(bots)@.to_multiset(),
        final(tree.target())@ == final(bots)@,
{
    TreeBuilder::with_axis(axis, bots).build_seq()
}

} // verus!
