//! Containers that hold the elements together with the tree built over
//! them, so that a tree can be returned by value or kept in another
//! structure.

use vstd::prelude::*;
use compt::dfs_order::{CompleteTreeContainer, PreOrder};
use crate::bbox::BBox;
use crate::geom::{Axis, Rect};
use crate::node::{Aabb, Node};
use crate::pmut::PMut;
use crate::tree::builder::TreeBuilder;
use crate::geom::{Ray, Vec2};
use crate::query::knearest::{Candidate, Knearest};
use crate::query::raycast::{Closest, RayCast};
use crate::query::rect::RectMode;
use crate::tree::{container_from_preorder, container_get_nodes, default_axis, Tree, Vistr};

verus! {

/// A tree over a borrowed slice that gives access to the slice as well.
pub struct TreeRef<'a, T: Aabb> {
    inner: Tree<'a, T>,
}

impl<'a, T: Aabb> TreeRef<'a, T> {
    /// The tree inside.
    pub closed spec fn tree(&self) -> Tree<'a, T> {
        self.inner
    }

    /// Builds a tree over `arr` with the default axis.
    pub fn new(arr: &'a mut [T]) -> (r: TreeRef<'a, T>)
        requires
            crate::model::all_valid(
                crate::model::rects_of(old(arr)@),
                0,
                old(arr)@.len() as int,
            ),
        ensures
            r.tree().wf(),
            r.tree().axis() == Axis::Y,
            r.tree().elements().to_multiset() == old(arr)@.to_multiset(),
            final(r.tree().target())@ == final(arr)@,
    {
        TreeRef::with_axis(default_axis(), arr)
    }

    /// Builds a tree over `arr` whose root is divided along `a`.
    pub fn with_axis(a: Axis, arr: &'a mut [T]) -> (r: TreeRef<'a, T>)
        requires
            crate::model::all_valid(
                crate::model::rects_of(old(arr)@),
                0,
                old(arr)@.len() as int,
            ),
        ensures
            r.tree().wf(),
            r.tree().axis() == a,
            r.tree().elements().to_multiset() == old(arr)@.to_multiset(),
            final(r.tree().target())@ == final(arr)@,
    {
        TreeRef { inner: crate::tree::with_axis(a, arr) }
    }

    /// The tree, for queries that do not write.
    pub fn as_tree(&self) -> (r: &Tree<'a, T>)
        ensures
            *r == self.tree(),
    {
        &self.inner
    }

    /// The tree, for queries that write payloads.
    pub fn as_tree_mut(&mut self) -> (r: &mut Tree<'a, T>)
        ensures
            *r == old(self).tree(),
            *final(r) == final(self).tree(),
    {
        &mut self.inner
    }

    /// The elements in the order in which the tree holds them.
    pub fn get_elements(&self) -> (r: &[T])
        ensures
            r@ == self.tree().elements(),
    {
        self.inner.get_elements()
    }

    /// The elements, protected.
    pub fn get_elements_mut(&mut self) -> (r: PMut<[T]>)
        ensures
            r.target()@ == old(self).tree().elements(),
            final(self).tree().elements() == final(r.target())@,
            final(self).tree().nodes() == old(self).tree().nodes(),
            final(self).tree().axis() == old(self).tree().axis(),
            final(self).tree().levels() == old(self).tree().levels(),
            final(self).tree().bucket() == old(self).tree().bucket(),
    {
        self.inner.get_elements_mut()
    }
}

/// A tree that owns its elements.
pub struct TreeOwned<T: Aabb> {
    axis: Axis,
    height: usize,
    bucket: usize,
    inner: CompleteTreeContainer<Node, PreOrder>,
    bots: Vec<T>,
}

impl<T: Aabb> TreeOwned<T> {
    /// The axis along which the root is divided.
    pub closed spec fn axis(&self) -> Axis {
        self.axis
    }

    /// The number of levels.
    pub closed spec fn levels(&self) -> nat {
        self.height as nat
    }

    /// The number of elements up to which a node was not divided.
    pub closed spec fn bucket(&self) -> nat {
        self.bucket as nat
    }

    /// The nodes, in pre-order.
    pub closed spec fn nodes(&self) -> Seq<Node> {
        crate::tree::container_nodes(self.inner)
    }

    /// The elements in the order in which the tree holds them.
    pub closed spec fn elements(&self) -> Seq<T> {
        self.bots@
    }

    /// The rectangles of the elements.
    pub open spec fn rects(&self) -> Seq<Rect> {
        crate::model::rects_of(self.elements())
    }

    /// The keys of the elements: which element stands where.
    pub open spec fn keys(&self) -> Seq<int> {
        crate::model::keys_of(self.elements())
    }

    /// The invariants of a tree, as [`Tree::wf`] states them.
    pub open spec fn wf(&self) -> bool {
        &&& 1 <= self.levels() <= crate::tree::analyze::HEIGHT_LIMIT
        &&& self.nodes().len() == crate::model::subtree_len(self.levels())
        &&& crate::model::subtree_wf(
            self.nodes(),
            self.rects(),
            0,
            self.levels(),
            self.axis(),
            0,
            self.elements().len() as int,
            self.bucket(),
        )
        &&& crate::model::all_valid(self.rects(), 0, self.elements().len() as int)
    }

    /// Builds a tree over `bots` with the default axis.
    pub fn new(bots: Vec<T>) -> (r: TreeOwned<T>)
        requires
            crate::model::all_valid(crate::model::rects_of(bots@), 0, bots@.len() as int),
        ensures
            r.wf(),
            r.axis() == Axis::Y,
            r.levels() == crate::tree::analyze::height_heuristic(
                bots@.len(),
                crate::tree::analyze::DEFAULT_NUMBER_ELEM_PER_NODE as nat,
                crate::tree::analyze::MAX_HEIGHT as nat,
            ),
            r.bucket() == crate::tree::analyze::DEFAULT_NUMBER_ELEM_PER_NODE,
            r.elements().to_multiset() == bots@.to_multiset(),
    {
        Self::with_axis(default_axis(), bots)
    }

    /// Builds a tree over `bots` whose root is divided along `axis`.
    pub fn with_axis(axis: Axis, bots: Vec<T>) -> (r: TreeOwned<T>)
        requires
            crate::model::all_valid(crate::model::rects_of(bots@), 0, bots@.len() as int),
        ensures
            r.wf(),
            r.axis() == axis,
            r.levels() == crate::tree::analyze::height_heuristic(
                bots@.len(),
                crate::tree::analyze::DEFAULT_NUMBER_ELEM_PER_NODE as nat,
                crate::tree::analyze::MAX_HEIGHT as nat,
            ),
            r.bucket() == crate::tree::analyze::DEFAULT_NUMBER_ELEM_PER_NODE,
            r.elements().to_multiset() == bots@.to_multiset(),
    {
        let mut bots = bots;
        let tree = TreeBuilder::with_axis(axis, bots.as_mut_slice()).build_seq();
        let (axis, height, bucket, inner) = tree.into_parts();
        TreeOwned { axis, height, bucket, inner, bots }
    }

    /// The elements in the order in which the tree holds them.
    pub fn get_elements(&self) -> (r: &[T])
        ensures
            r@ == self.elements(),
    {
        self.bots.as_slice()
    }

    /// The elements, protected.
    pub fn get_elements_mut(&mut self) -> (r: PMut<[T]>)
        ensures
            r.target()@ == old(self).elements(),
            final(self).elements() == final(r.target())@,
            final(self).nodes() == old(self).nodes(),
            final(self).axis() == old(self).axis(),
            final(self).levels() == old(self).levels(),
            final(self).bucket() == old(self).bucket(),
    {
        PMut::new(self.bots.as_mut_slice())
    }

    /// The whole tree as a subtree.
    pub fn vistr(&self) -> (r: Vistr)
        requires
            self.wf(),
        ensures
            r.wf(self.rects(), self.axis()),
            r.start() == 0,
            r.end == self.elements().len(),
    {
        let nodes = container_get_nodes(&self.inner);
        let len = nodes.len();
        Vistr { nodes, at: 0, len, height: self.height, end: self.bots.len(), bucket: self.bucket }
    }

    /// The positions of the elements whose rectangle answers the query,
    /// each once, as [`Tree::find_in_window`] finds them.
    pub fn find_in_window(&self, window: &Rect, mode: RectMode) -> (found: Vec<usize>)
        requires
            self.wf(),
        ensures
            crate::query::rect::found_exactly(
                found@,
                self.rects(),
                0,
                self.rects().len() as int,
                *window,
                mode,
            ),
    {
        let mut out: Vec<usize> = Vec::new();
        let m = self.vistr();
        let found = crate::query::rect::rect_recurse(
            self.axis,
            m,
            self.bots.as_slice(),
            window,
            mode,
            &mut out,
        );
        proof {
            assert(out@ =~= found@);
        }
        out
    }

    /// Where the `num` elements nearest to `point` stand, nearest first,
    /// as [`Tree::k_nearest_by`] finds them.
    pub fn k_nearest_by<H: Knearest<T = T>>(&self, handler: &H, point: Vec2, num: usize) -> (res: Vec<
        Candidate,
    >)
        requires
            self.wf(),
            crate::query::knearest::all_in_reach(self.rects()),
            point.in_reach(),
        ensures
            crate::query::knearest::is_k_nearest(
                res@,
                crate::query::knearest::dists_of(*handler, point, self.elements()),
                num as nat,
            ),
    {
        let mut heap: Vec<Candidate> = Vec::new();
        let m = self.vistr();
        proof {
            assert forall|i: int|
                0 <= i < self.rects().len() implies !crate::query::knearest::holds_pos(heap@, i) by {}
        }
        crate::query::knearest::knearest_recurse(
            handler,
            self.axis,
            m,
            self.bots.as_slice(),
            point,
            num,
            &mut heap,
        );
        proof {
            crate::query::knearest::lemma_all_covered(
                heap@,
                crate::query::knearest::dists_of(*handler, point, self.elements()),
                num as nat,
            );
        }
        heap
    }

    /// Where the elements stand that the ray meets first, as
    /// [`Tree::raycast_by`] finds them.
    pub fn raycast_by<H: RayCast<T = T>>(&self, handler: &H, ray: &Ray) -> (res: Option<Closest>)
        requires
            self.wf(),
            crate::query::raycast::all_castable(self.rects()),
            ray.in_reach(),
        ensures
            crate::query::raycast::is_ray_answer(
                res,
                crate::query::raycast::casts_of(*handler, *ray, self.elements()),
            ),
    {
        let m = self.vistr();
        let res = crate::query::raycast::raycast_recurse(
            handler,
            self.axis,
            m,
            self.bots.as_slice(),
            ray,
            None,
        );
        proof {
            crate::query::raycast::lemma_all_seen(
                res,
                crate::query::raycast::casts_of(*handler, *ray, self.elements()),
            );
        }
        res
    }

    /// A tree over the elements, for queries. The elements are borrowed;
    /// the node array is copied.
    pub fn as_tree_mut(&mut self) -> (r: Tree<'_, T>)
        requires
            old(self).wf(),
        ensures
            r.wf(),
            r.axis() == old(self).axis(),
            r.levels() == old(self).levels(),
            r.bucket() == old(self).bucket(),
            r.nodes() == old(self).nodes(),
            r.elements() == old(self).elements(),
            final(self).elements() == final(r.target())@,
            final(self).nodes() == old(self).nodes(),
            final(self).axis() == old(self).axis(),
            final(self).levels() == old(self).levels(),
            final(self).bucket() == old(self).bucket(),
    {
        let inner = copy_container(&self.inner, Ghost(self.height as nat));
        Tree {
            axis: self.axis,
            height: self.height,
            bucket: self.bucket,
            inner,
            bots: self.bots.as_mut_slice(),
        }
    }

    /// Builds the tree anew over the elements as they are, after their
    /// rectangles have been changed.
    pub fn rebuild(&mut self)
        requires
            crate::model::all_valid(
                crate::model::rects_of(old(self).elements()),
                0,
                old(self).elements().len() as int,
            ),
            1 <= old(self).levels() <= crate::tree::analyze::HEIGHT_LIMIT,
        ensures
            final(self).wf(),
            final(self).axis() == old(self).axis(),
            final(self).elements().to_multiset() == old(self).elements().to_multiset(),
    {
        let tree = TreeBuilder::with_axis(self.axis, self.bots.as_mut_slice()).build_seq();
        let (axis, height, bucket, inner) = tree.into_parts();
        self.axis = axis;
        self.height = height;
        self.bucket = bucket;
        self.inner = inner;
    }

    /// The elements for any change, their rectangles included. The tree
    /// is to be built anew before it is asked again.
    pub fn get_elements_raw_mut(&mut self) -> (r: &mut [T])
        ensures
            r@ == old(self).elements(),
            final(self).elements() == final(r)@,
            final(self).nodes() == old(self).nodes(),
            final(self).axis() == old(self).axis(),
            final(self).levels() == old(self).levels(),
            final(self).bucket() == old(self).bucket(),
    {
        self.bots.as_mut_slice()
    }
}

impl<T: Aabb + Send> TreeOwned<T> {
    /// Builds a tree over `bots` with the default axis and the workers of
    /// the pool.
    pub fn new_par(bots: Vec<T>) -> (r: TreeOwned<T>)
        requires
            crate::model::all_valid(crate::model::rects_of(bots@), 0, bots@.len() as int),
        ensures
            r.wf(),
            r.axis() == Axis::Y,
            r.levels() == crate::tree::analyze::height_heuristic(
                bots@.len(),
                crate::tree::analyze::DEFAULT_NUMBER_ELEM_PER_NODE as nat,
                crate::tree::analyze::MAX_HEIGHT as nat,
            ),
            r.bucket() == crate::tree::analyze::DEFAULT_NUMBER_ELEM_PER_NODE,
            r.elements().to_multiset() == bots@.to_multiset(),
    {
        Self::with_axis_par(default_axis(), bots)
    }

    /// Builds a tree over `bots` whose root is divided along `axis`, with
    /// the workers of the pool.
    pub fn with_axis_par(axis: Axis, bots: Vec<T>) -> (r: TreeOwned<T>)
        requires
            crate::model::all_valid(crate::model::rects_of(bots@), 0, bots@.len() as int),
        ensures
            r.wf(),
            r.axis() == axis,
            r.levels() == crate::tree::analyze::height_heuristic(
                bots@.len(),
                crate::tree::analyze::DEFAULT_NUMBER_ELEM_PER_NODE as nat,
                crate::tree::analyze::MAX_HEIGHT as nat,
            ),
            r.bucket() == crate::tree::analyze::DEFAULT_NUMBER_ELEM_PER_NODE,
            r.elements().to_multiset() == bots@.to_multiset(),
    {
        let mut bots = bots;
        let tree = TreeBuilder::with_axis(axis, bots.as_mut_slice()).build_par();
        let (axis, height, bucket, inner) = tree.into_parts();
        TreeOwned { axis, height, bucket, inner, bots }
    }
}

/// The boxes that stand for the elements in a tree over an indirection:
/// box `i` carries the position `i` and a rectangle that `func` gives for
/// the element at `i`.
pub open spec fn boxes_of<T, F: Fn(&T) -> Rect>(bots: Seq<T>, func: F, boxes: Seq<BBox<usize>>) -> bool {
    &&& boxes.len() == bots.len()
    &&& forall|i: int|
        0 <= i < bots.len() ==> (#[trigger] boxes[i]).inner == i && call_ensures(
            func,
            (&bots[i],),
            boxes[i].rect,
        )
}

/// Makes the box of each element: its rectangle, as `func` gives it, with
/// its position.
pub fn make_boxes<T, F: Fn(&T) -> Rect>(bots: &[T], func: &F) -> (boxes: Vec<BBox<usize>>)
    requires
        forall|t: &T| #[trigger] call_requires(*func, (t,)),
    ensures
        boxes_of(bots@, *func, boxes@),
{
    let mut boxes: Vec<BBox<usize>> = Vec::new();
    let mut i: usize = 0;
    while i < bots.len()
        invariant
            i <= bots@.len(),
            forall|t: &T| #[trigger] call_requires(*func, (t,)),
            boxes_of(bots@.subrange(0, i as int), *func, boxes@),
        decreases bots@.len() - i,
    {
        let rect = func(&bots[i]);
        let ghost before = boxes@;
        boxes.push(BBox::new(rect, i));
        proof {
            let part = bots@.subrange(0, i + 1);
            assert forall|k: int| 0 <= k < part.len() implies (#[trigger] boxes@[k]).inner == k
                && call_ensures(*func, (&part[k],), boxes@[k].rect) by {
                if k < i {
                    assert(boxes@[k] == before[k]);
                    assert(part[k] == bots@.subrange(0, i as int)[k]);
                }
            }
        }
        i += 1;
    }
    proof {
        assert(bots@.subrange(0, bots@.len() as int) =~= bots@);
    }
    boxes
}

/// A tree over boxes that stand for elements which the container owns
/// and leaves where they are: building the tree reorders the boxes, not
/// the elements.
pub struct TreeOwnedInd<T> {
    inner: TreeOwned<BBox<usize>>,
    bots: Vec<T>,
}

impl<T> TreeOwnedInd<T> {
    /// The tree over the boxes.
    pub closed spec fn tree(&self) -> TreeOwned<BBox<usize>> {
        self.inner
    }

    /// The elements, in the order in which they were given.
    pub closed spec fn elements(&self) -> Seq<T> {
        self.bots@
    }

    /// Builds a tree with the default axis over the boxes that `func`
    /// makes of `bots`.
    pub fn new<F: Fn(&T) -> Rect>(bots: Vec<T>, func: F) -> (r: TreeOwnedInd<T>)
        requires
            forall|t: &T| #[trigger] call_requires(func, (t,)),
            forall|t: &T, rect: Rect| #[trigger] call_ensures(func, (t,), rect) ==> rect.valid(),
        ensures
            r.tree().wf(),
            r.tree().axis() == Axis::Y,
            r.elements() == bots@,
            exists|boxes: Seq<BBox<usize>>|
                boxes_of(bots@, func, boxes) && r.tree().elements().to_multiset()
                    == boxes.to_multiset(),
    {
        Self::with_axis(default_axis(), bots, func)
    }

    /// Builds a tree whose root is divided along `axis` over the boxes
    /// that `func` makes of `bots`.
    pub fn with_axis<F: Fn(&T) -> Rect>(axis: Axis, bots: Vec<T>, func: F) -> (r: TreeOwnedInd<T>)
        requires
            forall|t: &T| #[trigger] call_requires(func, (t,)),
            forall|t: &T, rect: Rect| #[trigger] call_ensures(func, (t,), rect) ==> rect.valid(),
        ensures
            r.tree().wf(),
            r.tree().axis() == axis,
            r.elements() == bots@,
            exists|boxes: Seq<BBox<usize>>|
                boxes_of(bots@, func, boxes) && r.tree().elements().to_multiset()
                    == boxes.to_multiset(),
    {
        let boxes = make_boxes(bots.as_slice(), &func);
        proof {
            let r = crate::model::rects_of(boxes@);
            assert forall|i: int| 0 <= i < boxes@.len() implies (#[trigger] r[i]).valid() by {
                assert(call_ensures(func, (&bots@[i],), boxes@[i].rect));
            }
        }
        let inner = TreeOwned::with_axis(axis, boxes);
        TreeOwnedInd { inner, bots }
    }

    /// As [`TreeOwnedInd::new`], with the workers of the pool.
    pub fn new_par<F: Fn(&T) -> Rect>(bots: Vec<T>, func: F) -> (r: TreeOwnedInd<T>)
        requires
            forall|t: &T| #[trigger] call_requires(func, (t,)),
            forall|t: &T, rect: Rect| #[trigger] call_ensures(func, (t,), rect) ==> rect.valid(),
        ensures
            r.tree().wf(),
            r.tree().axis() == Axis::Y,
            r.elements() == bots@,
            exists|boxes: Seq<BBox<usize>>|
                boxes_of(bots@, func, boxes) && r.tree().elements().to_multiset()
                    == boxes.to_multiset(),
    {
        Self::with_axis_par(default_axis(), bots, func)
    }

    /// As [`TreeOwnedInd::with_axis`], with the workers of the pool.
    pub fn with_axis_par<F: Fn(&T) -> Rect>(axis: Axis, bots: Vec<T>, func: F) -> (r: TreeOwnedInd<
        T,
    >)
        requires
            forall|t: &T| #[trigger] call_requires(func, (t,)),
            forall|t: &T, rect: Rect| #[trigger] call_ensures(func, (t,), rect) ==> rect.valid(),
        ensures
            r.tree().wf(),
            r.tree().axis() == axis,
            r.elements() == bots@,
            exists|boxes: Seq<BBox<usize>>|
                boxes_of(bots@, func, boxes) && r.tree().elements().to_multiset()
                    == boxes.to_multiset(),
    {
        let boxes = make_boxes(bots.as_slice(), &func);
        proof {
            let r = crate::model::rects_of(boxes@);
            assert forall|i: int| 0 <= i < boxes@.len() implies (#[trigger] r[i]).valid() by {
                assert(call_ensures(func, (&bots@[i],), boxes@[i].rect));
            }
        }
        let inner = TreeOwned::with_axis_par(axis, boxes);
        TreeOwnedInd { inner, bots }
    }

    /// The tree over the boxes, for queries. The payload of a box is the
    /// position of its element.
    pub fn as_tree_mut(&mut self) -> (r: Tree<'_, BBox<usize>>)
        requires
            old(self).tree().wf(),
        ensures
            r.wf(),
            r.axis() == old(self).tree().axis(),
            r.nodes() == old(self).tree().nodes(),
            r.elements() == old(self).tree().elements(),
            final(self).tree().elements() == final(r.target())@,
            final(self).tree().nodes() == old(self).tree().nodes(),
            final(self).tree().axis() == old(self).tree().axis(),
            final(self).tree().levels() == old(self).tree().levels(),
            final(self).tree().bucket() == old(self).tree().bucket(),
            final(self).elements() == old(self).elements(),
    {
        self.inner.as_tree_mut()
    }

    /// The elements, in the order in which they were given.
    pub fn get_elements(&self) -> (r: &[T])
        ensures
            r@ == self.elements(),
    {
        self.bots.as_slice()
    }

    /// The elements for writing.
    pub fn get_elements_mut(&mut self) -> (r: &mut [T])
        ensures
            r@ == old(self).elements(),
            final(self).elements() == final(r)@,
            final(self).tree() == old(self).tree(),
    {
        self.bots.as_mut_slice()
    }
}

/// A tree over boxes that stand for the elements of a borrowed slice,
/// which stay where they are.
pub struct TreeRefInd<'a, T> {
    inner: TreeOwned<BBox<usize>>,
    orig: &'a mut [T],
}

impl<'a, T> TreeRefInd<'a, T> {
    /// The tree over the boxes.
    pub closed spec fn tree(&self) -> TreeOwned<BBox<usize>> {
        self.inner
    }

    /// The elements, in the order of the slice.
    pub closed spec fn elements(&self) -> Seq<T> {
        self.orig@
    }

    /// The borrowed slice.
    pub closed spec fn target(self) -> &'a mut [T] {
        self.orig
    }

    /// Builds a tree with the default axis over the boxes that `func`
    /// makes of `arr`.
    pub fn new<F: Fn(&T) -> Rect>(arr: &'a mut [T], func: F) -> (r: TreeRefInd<'a, T>)
        requires
            forall|t: &T| #[trigger] call_requires(func, (t,)),
            forall|t: &T, rect: Rect| #[trigger] call_ensures(func, (t,), rect) ==> rect.valid(),
        ensures
            r.tree().wf(),
            r.tree().axis() == Axis::Y,
            r.elements() == old(arr)@,
            final(r.target())@ == final(arr)@,
            exists|boxes: Seq<BBox<usize>>|
                boxes_of(old(arr)@, func, boxes) && r.tree().elements().to_multiset()
                    == boxes.to_multiset(),
    {
        Self::with_axis(default_axis(), arr, func)
    }

    /// Builds a tree whose root is divided along `axis` over the boxes
    /// that `func` makes of `arr`.
    pub fn with_axis<F: Fn(&T) -> Rect>(axis: Axis, arr: &'a mut [T], func: F) -> (r: TreeRefInd<
        'a,
        T,
    >)
        requires
            forall|t: &T| #[trigger] call_requires(func, (t,)),
            forall|t: &T, rect: Rect| #[trigger] call_ensures(func, (t,), rect) ==> rect.valid(),
        ensures
            r.tree().wf(),
            r.tree().axis() == axis,
            r.elements() == old(arr)@,
            final(r.target())@ == final(arr)@,
            exists|boxes: Seq<BBox<usize>>|
                boxes_of(old(arr)@, func, boxes) && r.tree().elements().to_multiset()
                    == boxes.to_multiset(),
    {
        let boxes = make_boxes(&*arr, &func);
        proof {
            let r = crate::model::rects_of(boxes@);
            assert forall|i: int| 0 <= i < boxes@.len() implies (#[trigger] r[i]).valid() by {
                assert(call_ensures(func, (&arr@[i],), boxes@[i].rect));
            }
        }
        let inner = TreeOwned::with_axis(axis, boxes);
        TreeRefInd { inner, orig: arr }
    }

    /// The tree over the boxes, for queries. The payload of a box is the
    /// position of its element.
    pub fn as_tree_mut(&mut self) -> (r: Tree<'_, BBox<usize>>)
        requires
            old(self).tree().wf(),
        ensures
            r.wf(),
            r.axis() == old(self).tree().axis(),
            r.nodes() == old(self).tree().nodes(),
            r.elements() == old(self).tree().elements(),
            final(self).tree().elements() == final(r.target())@,
            final(self).tree().nodes() == old(self).tree().nodes(),
            final(self).tree().axis() == old(self).tree().axis(),
            final(self).tree().levels() == old(self).tree().levels(),
            final(self).tree().bucket() == old(self).tree().bucket(),
            final(self).elements() == old(self).elements(),
            final(final(self).target())@ == final(old(self).target())@,
    {
        self.inner.as_tree_mut()
    }

    /// The elements, in the order of the slice.
    pub fn get_elements(&self) -> (r: &[T])
        ensures
            r@ == self.elements(),
    {
        &*self.orig
    }

    /// The elements for writing.
    pub fn get_elements_mut(&mut self) -> (r: &mut [T])
        ensures
            r@ == old(self).elements(),
            final(self).elements() == final(r)@,
            final(self).tree() == old(self).tree(),
            final(final(self).target())@ == final(old(self).target())@,
    {
        &mut *self.orig
    }
}

/// A container with the same nodes.
fn copy_container(c: &CompleteTreeContainer<Node, PreOrder>, Ghost(height): Ghost<nat>) -> (r:
    CompleteTreeContainer<Node, PreOrder>)
    requires
        height >= 1,
        crate::tree::container_nodes(*c).len() == crate::model::subtree_len(height),
    ensures
        crate::tree::container_nodes(r) == crate::tree::container_nodes(*c),
{
    let nodes = container_get_nodes(c);
    let mut copy: Vec<Node> = Vec::new();
    let mut k: usize = 0;
    while k < nodes.len()
        invariant
            k <= nodes@.len(),
            copy@ == nodes@.subrange(0, k as int),
        decreases nodes@.len() - k,
    {
        copy.push(nodes[k]);
        proof {
            assert(copy@ =~= nodes@.subrange(0, k + 1));
        }
        k += 1;
    }
    proof {
        assert(copy@ =~= nodes@);
        crate::tree::lemma_subtree_len_pow2(height);
        crate::model::lemma_subtree_len_pos(height);
    }
    match container_from_preorder(copy) {
        Ok(r) => r,
        Err(_) => vstd::pervasive::unreached(),
    }
}

} // verus!
