//! Sorting by start coordinate and the scratch lists of the sweeps.

use vstd::prelude::*;
use core::cmp::Ordering;
use twounordered::TwoUnorderedVecs;
use twounordered::RetainMutUnordered;
use itertools::Itertools;
use crate::geom::Axis;
use crate::node::Aabb;

verus! {

/// Whether the first rectangle comes strictly before the second in the
/// order that elements are sorted by: by start along `axis`, and by end
/// where the starts are equal.
pub open spec fn key_before(a: crate::geom::Rect, b: crate::geom::Rect, axis: Axis) -> bool {
    a.range(axis).start < b.range(axis).start || (a.range(axis).start == b.range(axis).start
        && a.range(axis).end < b.range(axis).end)
}

/// Orders two elements by where they start along `axis`, and by where
/// they end where they start together: `Less` where the first comes
/// before the second, `Greater` where it comes after, and `Equal` where
/// both the starts and the ends are the same.
pub fn compare_bots<T: Aabb>(axis: Axis, a: &T, b: &T) -> (r: Ordering)
    ensures
        r == Ordering::Less <==> key_before(a.rect(), b.rect(), axis),
        r == Ordering::Greater <==> key_before(b.rect(), a.rect(), axis),
        r == Ordering::Equal <==> a.rect().range(axis) == b.rect().range(axis),
{
    let ra = a.get().get_range(axis);
    let rb = b.get().get_range(axis);
    if ra.start < rb.start {
        Ordering::Less
    } else if ra.start > rb.start {
        Ordering::Greater
    } else if ra.end < rb.end {
        Ordering::Less
    } else if ra.end > rb.end {
        Ordering::Greater
    } else {
        Ordering::Equal
    }
}

/// The start of an element along `axis`, then its end: the key that
/// elements are sorted by.
pub fn sort_key<T: Aabb>(axis: Axis, a: &T) -> (r: (i64, i64))
    ensures
        r.0 == a.rect().range(axis).start,
        r.1 == a.rect().range(axis).end,
{
    let range = a.get().get_range(axis);
    (range.start, range.end)
}

/// Sorts the elements by their start along `axis`, and by their end where
/// the starts are equal.
pub fn sweeper_update<T: Aabb>(axis: Axis, collision_botids: &mut [T])
    ensures
        final(collision_botids)@.to_multiset() == old(collision_botids)@.to_multiset(),
        final(collision_botids)@.len() == old(collision_botids)@.len(),
        crate::model::sorted_by_key(
            crate::model::rects_of(final(collision_botids)@),
            axis,
            0,
            final(collision_botids)@.len() as int,
        ),
        crate::model::sorted_by_start(
            crate::model::rects_of(final(collision_botids)@),
            axis,
            0,
            final(collision_botids)@.len() as int,
        ),
{
    sort_by_key(axis, collision_botids);
    proof {
        old(collision_botids)@.to_multiset_ensures();
        collision_botids@.to_multiset_ensures();
        crate::model::lemma_sorted_by_key(
            crate::model::rects_of(collision_botids@),
            axis,
            0,
            collision_botids@.len() as int,
        );
    }
}

/// Calls `sort_unstable_by_key` of std on the slice, with [`sort_key`] as
/// the key. Trusted: afterwards the slice holds the same elements, each as
/// often as before, in an order in which the keys never decrease: the
/// starts along `axis`, and the ends where starts are equal.
#[verifier::external_body]
fn sort_by_key<T: Aabb>(axis: Axis, elems: &mut [T])
    ensures
        final(elems)@.to_multiset() == old(elems)@.to_multiset(),
        crate::model::sorted_by_key(
            crate::model::rects_of(final(elems)@),
            axis,
            0,
            final(elems)@.len() as int,
        ),
{
    elems.sort_unstable_by_key(|a| sort_key(axis, a));
}

/// Moves the element that a sort by start along `axis` would put at
/// position `index` to that position, with the earlier starts before it and
/// the later ones after it.
pub fn select_nth<T: Aabb>(axis: Axis, elems: &mut [T], index: usize)
    requires
        index < old(elems)@.len(),
    ensures
        final(elems)@.to_multiset() == old(elems)@.to_multiset(),
        final(elems)@.len() == old(elems)@.len(),
        forall|i: int|
            0 <= i < index ==> (#[trigger] final(elems)@[i]).rect().range(axis).start
                <= final(elems)@[index as int].rect().range(axis).start,
        forall|i: int|
            index < i < final(elems)@.len() ==> (#[trigger] final(elems)@[i]).rect().range(
                axis,
            ).start >= final(elems)@[index as int].rect().range(axis).start,
{
    select_nth_by_key(axis, elems, index);
    proof {
        old(elems)@.to_multiset_ensures();
        elems@.to_multiset_ensures();
    }
}

/// Calls `select_nth_unstable_by_key` of std on the slice, with
/// [`sort_key`] as the key. Trusted: afterwards the slice holds the same
/// elements, each as often as before; no element before position `index`
/// starts later along `axis` than the one at `index`, and none after it
/// starts earlier.
#[verifier::external_body]
fn select_nth_by_key<T: Aabb>(axis: Axis, elems: &mut [T], index: usize)
    requires
        index < old(elems)@.len(),
    ensures
        final(elems)@.to_multiset() == old(elems)@.to_multiset(),
        forall|i: int|
            0 <= i < index ==> (#[trigger] final(elems)@[i]).rect().range(axis).start
                <= final(elems)@[index as int].rect().range(axis).start,
        forall|i: int|
            index < i < final(elems)@.len() ==> (#[trigger] final(elems)@[i]).rect().range(
                axis,
            ).start >= final(elems)@[index as int].rect().range(axis).start,
{
    elems.select_nth_unstable_by_key(index, |a| sort_key(axis, a));
}

/// The outside collection that holds two lists in one allocation.
#[verifier::external_type_specification]
#[verifier::external_body]
#[verifier::reject_recursive_types(T)]
pub struct ExTwoUnorderedVecs<T>(TwoUnorderedVecs<T>);

/// The items of the first list, in the order in which they are stored.
pub uninterp spec fn first_items(v: TwoUnorderedVecs<Vec<usize>>) -> Seq<usize>;

/// The items of the second list, in the order in which they are stored.
pub uninterp spec fn second_items(v: TwoUnorderedVecs<Vec<usize>>) -> Seq<usize>;

/// Calls `TwoUnorderedVecs::with_capacity`. Trusted: both lists are empty.
#[verifier::external_body]
fn lists_with_capacity(num: usize) -> (v: TwoUnorderedVecs<Vec<usize>>)
    ensures
        first_items(v) == Seq::<usize>::empty(),
        second_items(v) == Seq::<usize>::empty(),
{
    TwoUnorderedVecs::with_capacity(num)
}

/// Calls `TwoUnorderedVecs::clear`. Trusted: both lists are empty
/// afterwards.
#[verifier::external_body]
fn lists_clear(v: &mut TwoUnorderedVecs<Vec<usize>>)
    ensures
        first_items(*final(v)) == Seq::<usize>::empty(),
        second_items(*final(v)) == Seq::<usize>::empty(),
{
    v.clear()
}

/// Calls `TwoUnorderedVecs::as_slice`. Trusted: the two slices hold the
/// items of the first and of the second list.
#[verifier::external_body]
pub(crate) fn lists_as_slice(v: &TwoUnorderedVecs<Vec<usize>>) -> (r: (&[usize], &[usize]))
    ensures
        r.0@ == first_items(*v),
        r.1@ == second_items(*v),
{
    v.as_slice()
}

/// Calls `FirstVec::push`. Trusted: the item is appended to the first
/// list; the second list keeps its items, not necessarily their order.
#[verifier::external_body]
pub(crate) fn first_push(v: &mut TwoUnorderedVecs<Vec<usize>>, item: usize)
    ensures
        first_items(*final(v)) == first_items(*old(v)).push(item),
        second_items(*final(v)).to_multiset() == second_items(*old(v)).to_multiset(),
{
    v.first().push(item)
}

/// Calls `SecondVec::push`. Trusted: the item is appended to the second
/// list and the first list is as before.
#[verifier::external_body]
pub(crate) fn second_push(v: &mut TwoUnorderedVecs<Vec<usize>>, item: usize)
    ensures
        second_items(*final(v)) == second_items(*old(v)).push(item),
        first_items(*final(v)) == first_items(*old(v)),
{
    v.second().push(item)
}

/// Whether the element at position `item` ends at or after `from` along
/// `axis`: the test by which a sweep keeps an element active.
pub fn ends_from<T: Aabb>(elems: &[T], axis: Axis, item: usize, from: i64) -> (r: bool)
    requires
        item < elems@.len(),
    ensures
        r == (elems@[item as int].rect().range(axis).end >= from),
{
    elems[item].get().get_range(axis).end >= from
}

/// Calls `retain_mut_unordered` on the first list, with [`ends_from`] as
/// the test. Trusted: of the first list exactly the items that pass the
/// test stay, each as often as before, in some order; the second list
/// keeps its items, not necessarily their order.
#[verifier::external_body]
pub(crate) fn first_retain<T: Aabb>(
    v: &mut TwoUnorderedVecs<Vec<usize>>,
    elems: &[T],
    axis: Axis,
    from: i64,
)
    requires
        forall|k: int|
            0 <= k < first_items(*old(v)).len() ==> (#[trigger] first_items(*old(v))[k])
                < elems@.len(),
    ensures
        first_items(*final(v)).to_multiset() == first_items(*old(v)).to_multiset().filter(
            |i: usize| elems@[i as int].rect().range(axis).end >= from,
        ),
        second_items(*final(v)).to_multiset() == second_items(*old(v)).to_multiset(),
{
    v.first().retain_mut_unordered(|i| ends_from(elems, axis, *i, from))
}

/// Calls `retain_mut_unordered` on the second list, with [`ends_from`] as
/// the test. Trusted: of the second list exactly the items that pass the
/// test stay, each as often as before, in some order; the first list is as
/// before.
#[verifier::external_body]
pub(crate) fn second_retain<T: Aabb>(
    v: &mut TwoUnorderedVecs<Vec<usize>>,
    elems: &[T],
    axis: Axis,
    from: i64,
)
    requires
        forall|k: int|
            0 <= k < second_items(*old(v)).len() ==> (#[trigger] second_items(*old(v))[k])
                < elems@.len(),
    ensures
        second_items(*final(v)).to_multiset() == second_items(*old(v)).to_multiset().filter(
            |i: usize| elems@[i as int].rect().range(axis).end >= from,
        ),
        first_items(*final(v)) == first_items(*old(v)),
{
    v.second().retain_mut_unordered(|i| ends_from(elems, axis, *i, from))
}

/// Scratch lists that the sweeps reuse from call to call, so that a query
/// allocates once.
pub struct PreVec {
    vec: TwoUnorderedVecs<Vec<usize>>,
}

impl PreVec {
    /// The two lists.
    pub closed spec fn lists(self) -> TwoUnorderedVecs<Vec<usize>> {
        self.vec
    }

    /// Scratch lists that hold nothing and have no room yet.
    pub fn new() -> (r: PreVec)
        ensures
            first_items(r.lists()) == Seq::<usize>::empty(),
            second_items(r.lists()) == Seq::<usize>::empty(),
    {
        PreVec { vec: lists_with_capacity(0) }
    }

    /// Scratch lists that hold nothing and have room for `num` items.
    pub fn with_capacity(num: usize) -> (r: PreVec)
        ensures
            first_items(r.lists()) == Seq::<usize>::empty(),
            second_items(r.lists()) == Seq::<usize>::empty(),
    {
        PreVec { vec: lists_with_capacity(num) }
    }

    /// Empties both lists.
    pub fn clear(&mut self)
        ensures
            first_items(final(self).lists()) == Seq::<usize>::empty(),
            second_items(final(self).lists()) == Seq::<usize>::empty(),
    {
        lists_clear(&mut self.vec);
    }

    /// Empties both lists and hands them out.
    pub fn get_empty_vec_mut(&mut self) -> (r: &mut TwoUnorderedVecs<Vec<usize>>)
        ensures
            first_items(*r) == Seq::<usize>::empty(),
            second_items(*r) == Seq::<usize>::empty(),
            final(self).lists() == *final(r),
    {
        lists_clear(&mut self.vec);
        &mut self.vec
    }
}

/// `count` items at the front of `s` are like the first item, and the next
/// one, if there is one, is not: `count` is where the first run of `s`
/// ends.
pub open spec fn is_leading_run<T, F: Fn(&T, &T) -> bool>(s: Seq<T>, func: F, count: int) -> bool {
    &&& 0 <= count <= s.len()
    &&& forall|i: int| 0 <= i < count ==> call_ensures(func, (&#[trigger] s[i], &s[0]), true)
    &&& count < s.len() ==> call_ensures(func, (&s[count], &s[0]), false)
}

/// `count` items at the back of `s` are like the last item, and the one
/// before them, if there is one, is not.
pub open spec fn is_trailing_run<T, F: Fn(&T, &T) -> bool>(s: Seq<T>, func: F, count: int) -> bool {
    &&& 0 <= count <= s.len()
    &&& forall|i: int|
        s.len() - count <= i < s.len() ==> call_ensures(func, (&#[trigger] s[i], &s.last()), true)
    &&& count < s.len() ==> call_ensures(func, (&s[s.len() - count - 1], &s.last()), false)
}

/// What `func` says of `a` and `b`: whether they belong to one run.
pub fn alike<T, F: Fn(&T, &T) -> bool>(func: &F, a: &T, b: &T) -> (r: bool)
    requires
        call_requires(*func, (a, b)),
    ensures
        call_ensures(*func, (a, b), r),
{
    func(a, b)
}

/// The item at the front of a slice that is not empty.
pub fn front<T>(arr: &[T]) -> (r: &T)
    requires
        arr@.len() > 0,
    ensures
        *r == arr@[0],
{
    &arr[0]
}

/// The item at the back of a slice that is not empty.
pub fn back<T>(arr: &[T]) -> (r: &T)
    requires
        arr@.len() > 0,
    ensures
        *r == arr@.last(),
{
    &arr[arr.len() - 1]
}

/// Calls `peeking_take_while` of itertools on the slice's iterator and
/// counts what it takes. Trusted: the adaptor takes items from the front
/// while `func`, given the item and the first item, returns `true`, and
/// stops at the first for which it returns `false`.
#[verifier::external_body]
fn leading_count<T, F: Fn(&T, &T) -> bool>(arr: &[T], func: &F) -> (count: usize)
    requires
        arr@.len() > 0,
        forall|a: &T, b: &T| #[trigger] call_requires(*func, (a, b)),
    ensures
        is_leading_run(arr@, *func, count as int),
{
    arr.iter().peeking_take_while(|a| alike(func, a, front(arr))).count()
}

/// Calls `peeking_take_while` of itertools on the slice's iterator
/// reversed and counts what it takes. Trusted: the adaptor takes items from
/// the back while `func`, given the item and the last item, returns
/// `true`, and stops at the first for which it returns `false`.
#[verifier::external_body]
fn trailing_count<T, F: Fn(&T, &T) -> bool>(arr: &[T], func: &F) -> (count: usize)
    requires
        arr@.len() > 0,
        forall|a: &T, b: &T| #[trigger] call_requires(*func, (a, b)),
    ensures
        is_trailing_run(arr@, *func, count as int),
{
    arr.iter().rev().peeking_take_while(|a| alike(func, a, back(arr))).count()
}

/// Splits a mutable slice into runs: a run ends where `func`, given an
/// item and the first item of the run, returns `false`.
pub struct SliceSplitMut<'a, T, F> {
    arr: Option<&'a mut [T]>,
    func: F,
}

impl<'a, T, F: Fn(&T, &T) -> bool> SliceSplitMut<'a, T, F> {
    /// The part of the slice that has not been handed out; empty once the
    /// end has been reported.
    pub closed spec fn rest(self) -> Seq<T> {
        match self.arr {
            Some(s) => s@,
            None => Seq::empty(),
        }
    }

    /// The test that tells the runs apart.
    pub closed spec fn func(self) -> F {
        self.func
    }

    pub fn new(arr: &'a mut [T], func: F) -> (r: SliceSplitMut<'a, T, F>)
        ensures
            r.rest() == old(arr)@,
            r.func() == func,
    {
        SliceSplitMut { arr: Some(arr), func }
    }

    /// The first run of what is left, or `None` when nothing is left.
    pub fn next(&mut self) -> (r: Option<&'a mut [T]>)
        requires
            forall|a: &T, b: &T| #[trigger] call_requires(old(self).func(), (a, b)),
        ensures
            final(self).func() == old(self).func(),
            old(self).rest().len() == 0 ==> r is None && final(self).rest().len() == 0,
            old(self).rest().len() > 0 ==> {
                &&& r is Some
                &&& (r->0)@ + final(self).rest() == old(self).rest()
                &&& is_leading_run(old(self).rest(), old(self).func(), (r->0)@.len() as int)
            },
    {
        let arr = match self.arr.take() {
            None => {
                return None;
            },
            Some(arr) => arr,
        };
        if arr.len() == 0 {
            return None;
        }
        proof {
            assert(self.func == old(self).func());
            assert(forall|a: &T, b: &T| #[trigger] call_requires(self.func, (a, b)));
        }
        let count = leading_count(arr, &self.func);
        let (first, rest) = arr.split_at_mut(count);
        proof {
            assert(first@ + rest@ =~= old(self).rest());
        }
        self.arr = Some(rest);
        Some(first)
    }

    /// The last run of what is left, or `None` when nothing is left.
    pub fn next_back(&mut self) -> (r: Option<&'a mut [T]>)
        requires
            forall|a: &T, b: &T| #[trigger] call_requires(old(self).func(), (a, b)),
        ensures
            final(self).func() == old(self).func(),
            old(self).rest().len() == 0 ==> r is None && final(self).rest().len() == 0,
            old(self).rest().len() > 0 ==> {
                &&& r is Some
                &&& final(self).rest() + (r->0)@ == old(self).rest()
                &&& is_trailing_run(old(self).rest(), old(self).func(), (r->0)@.len() as int)
            },
    {
        let arr = match self.arr.take() {
            None => {
                return None;
            },
            Some(arr) => arr,
        };
        let ll = arr.len();
        if ll == 0 {
            return None;
        }
        proof {
            assert(self.func == old(self).func());
            assert(forall|a: &T, b: &T| #[trigger] call_requires(self.func, (a, b)));
        }
        let count = trailing_count(arr, &self.func);
        let (rest, last) = arr.split_at_mut(ll - count);
        proof {
            assert(rest@ + last@ =~= old(self).rest());
        }
        self.arr = Some(rest);
        Some(last)
    }
}

} // verus!
