use core::cmp::Ordering;

use broccoli::bbox::{bbox, BBox};
use broccoli::geom::{rect, vec2, Axis, Range, Rect};
use broccoli::node::{Aabb, NodeMut};
use broccoli::pmut::{HasInner, PMut};
use broccoli::query::colfind::CollisionHandler;
use broccoli::query::naive;
use broccoli::query::rect::RectMode;
use broccoli::query::tools::{for_every_pair, swap_at, RetainMutUnordered};
use broccoli::report::{handle, handle_lowest, Bench, BenchRecord};
use broccoli::util::{compare_bots, select_nth, sort_key, PreVec, SliceSplitMut};

fn boxes() -> Vec<BBox<char>> {
    vec![
        bbox(rect(0, 1, 0, 1), 'a'),
        bbox(rect(2, 3, 0, 1), 'b'),
        bbox(rect(4, 5, 0, 1), 'c'),
        bbox(rect(6, 7, 0, 1), 'd'),
    ]
}

fn letters(p: &[BBox<char>]) -> String {
    p.iter().map(|b| b.inner).collect()
}

#[test]
fn bbox_exposes_rect_and_payload() {
    let mut b = BBox::new(rect(1, 2, 3, 4), 5u8);
    assert_eq!(*b.get(), rect(1, 2, 3, 4));
    {
        let (r, inner) = b.get_inner();
        assert_eq!(*r, rect(1, 2, 3, 4));
        assert_eq!(*inner, 5);
    }
    {
        let (r, inner) = b.get_inner_mut();
        assert_eq!(r.x, Range::new(1, 2));
        *inner = 6;
    }
    assert_eq!(b.inner, 6);
    assert_eq!(bbox(rect(1, 2, 3, 4), 6u8).rect, b.rect);
}

#[test]
fn pmut_slices_index_and_truncate() {
    let mut v = boxes();
    assert_eq!(PMut::new(v.as_mut_slice()).len(), 4);
    *PMut::new(v.as_mut_slice()).get_index_mut(2).unpack_inner() = 'x';
    assert_eq!(letters(&v), "abxd");
    assert_eq!(letters(PMut::new(v.as_mut_slice()).truncate_to(2).into_ref()), "ab");
    assert_eq!(letters(PMut::new(v.as_mut_slice()).truncate_from(3).into_ref()), "d");
    assert_eq!(letters(PMut::new(v.as_mut_slice()).truncate(1..3).into_ref()), "bx");
    assert_eq!(letters(PMut::new(v.as_mut_slice()).as_ref()), "abxd");
    {
        let (p, q) = PMut::new(v.as_mut_slice()).pair_mut(3, 0);
        core::mem::swap(p.unpack_inner(), q.unpack_inner());
    }
    assert_eq!(letters(&v), "dbxa");
    assert_eq!(*PMut::new(&mut v[1]).unpack_rect(), rect(2, 3, 0, 1));
    {
        let (r, inner) = PMut::new(&mut v[1]).unpack();
        assert_eq!(*r, rect(2, 3, 0, 1));
        *inner = 'q';
    }
    assert_eq!(letters(PMut::new(&mut v[1]).into_slice().into_ref()), "q");
}

#[test]
fn pmut_split_first_and_reborrow() {
    let mut v = boxes();
    let mut whole = PMut::new(v.as_mut_slice());
    {
        let (first, rest) = whole.borrow_mut().split_first_mut().unwrap();
        *first.unpack_inner() = 'A';
        assert_eq!(letters(rest.into_ref()), "bcd");
    }
    assert_eq!(letters(whole.as_ref()), "Abcd");
    let mut none: Vec<BBox<char>> = Vec::new();
    assert!(PMut::new(none.as_mut_slice()).split_first_mut().is_none());
    let mut one = bbox(rect(0, 1, 0, 1), 'z');
    let mut inner = PMut::new(&mut one);
    {
        let outer: PMut<PMut<BBox<char>>> = PMut::new(&mut inner);
        *outer.flatten().unpack_inner() = 'y';
    }
    assert_eq!(one.inner, 'y');
}

#[test]
fn pmut_iter_walks_from_both_ends() {
    let mut v = boxes();
    let mut it = PMut::new(v.as_mut_slice()).iter_mut();
    assert_eq!(it.len(), 4);
    *it.next().unwrap().unpack_inner() = '1';
    *it.next_back().unwrap().unpack_inner() = '4';
    *it.next().unwrap().unpack_inner() = '2';
    assert_eq!(it.len(), 1);
    *it.next_back().unwrap().unpack_inner() = '3';
    assert!(it.next().is_none());
    assert!(it.next_back().is_none());
    assert_eq!(letters(&v), "1234");
}

#[test]
fn node_is_taken_apart_through_a_protected_reference() {
    let mut v = boxes();
    let mut node = NodeMut { range: PMut::new(&mut v[1..3]), cont: Some(Range::new(0, 1)), div: Some(7) };
    {
        let (div, cont, range) = PMut::new(&mut node).into_range_full();
        assert_eq!(*div, Some(7));
        assert_eq!(*cont, Some(Range::new(0, 1)));
        *range.get_index_mut(0).unpack_inner() = 'B';
    }
    assert_eq!(letters(PMut::new(&mut node).into_range().into_ref()), "Bc");
    assert_eq!(letters(&v), "aBcd");
}

#[test]
fn geometry_agrees_with_closed_intervals() {
    let r = Range::new(2, 5);
    assert!(r.is_valid() && !Range::new(5, 2).is_valid());
    assert!(r.contains(2) && r.contains(5) && !r.contains(6) && !r.contains(1));
    assert!(r.contains_range(&Range::new(3, 5)) && !r.contains_range(&Range::new(3, 6)));
    let mut g = Range::new(2, 5);
    g.grow_to_fit(&Range::new(-1, 3));
    assert_eq!(g, Range::new(-1, 5));
    g.grow_to_fit(&Range::new(0, 9));
    assert_eq!(g, Range::new(-1, 9));
    let a = Rect::new(0, 10, 0, 10);
    assert_eq!(*a.get_range(Axis::X), a.x);
    assert_eq!(*a.get_range(Axis::Y), a.y);
    assert!(a.is_valid());
    assert!(a.intersects_rect(&rect(10, 12, 10, 12)));
    assert!(!a.intersects_rect(&rect(11, 12, 0, 10)));
    assert!(a.contains_rect(&rect(0, 10, 3, 4)) && !a.contains_rect(&rect(0, 11, 3, 4)));
    assert_eq!(a.distance_squared_to_point(vec2(5, 5)), None);
    assert_eq!(a.distance_squared_to_point(vec2(10, 5)), Some(0));
    assert_eq!(a.distance_squared_to_point(vec2(13, 14)), Some(25));
    assert_eq!(a.distance_squared(vec2(5, 5)), 0);
    assert_eq!(a.distance_squared(vec2(-3, 5)), 9);
    let far = 0x3FFF_FFFF_FFFF_FFFFi64;
    assert_eq!(
        rect(far, far, far, far).distance_squared(vec2(-far, -far)),
        2 * (2 * far as i128) * (2 * far as i128)
    );
    assert_eq!(Axis::X.next(), Axis::Y);
    assert_eq!(Axis::Y.next(), Axis::X);
    assert!(Axis::X.is_xaxis() && !Axis::Y.is_xaxis());
    assert!(Axis::X.is_equal_to(Axis::X) && !Axis::X.is_equal_to(Axis::Y));
    assert_eq!(vec2(3, 4).get_axis(Axis::Y), 4);
    assert!(RectMode::Intersect.test(&a, &rect(10, 11, 10, 11)));
    assert!(!RectMode::Inside.test(&a, &rect(10, 11, 10, 11)));
    assert!(RectMode::NotInside.test(&a, &rect(10, 11, 10, 11)));
    assert!(RectMode::Inside.prunes() && !RectMode::NotInside.prunes());
}

#[test]
fn compare_bots_orders_by_start_then_end() {
    let a = bbox(rect(0, 20, 0, 10), ());
    let b = bbox(rect(0, 10, 0, 10), ());
    assert_eq!(compare_bots(Axis::X, &a, &b), Ordering::Greater);
    assert_eq!(compare_bots(Axis::X, &b, &a), Ordering::Less);
    assert_eq!(compare_bots(Axis::Y, &a, &b), Ordering::Equal);
    let c = bbox(rect(0, 1, 5, 6), ());
    let d = bbox(rect(0, 9, 4, 6), ());
    assert_eq!(compare_bots(Axis::X, &c, &d), Ordering::Less);
    assert_eq!(compare_bots(Axis::X, &d, &c), Ordering::Greater);
    assert_eq!(compare_bots(Axis::Y, &c, &d), Ordering::Greater);
    assert_eq!(compare_bots(Axis::Y, &d, &c), Ordering::Less);
    assert_eq!(sort_key(Axis::Y, &d), (4, 6));
}

#[test]
fn select_nth_puts_the_median_in_place() {
    let mut v: Vec<BBox<usize>> =
        [9, 3, 7, 1, 8, 2, 5].iter().enumerate().map(|(i, &x)| bbox(rect(x, x + 1, 0, 1), i)).collect();
    select_nth(Axis::X, &mut v, 3);
    assert_eq!(v[3].rect.x.start, 5);
    assert!(v[..3].iter().all(|b| b.rect.x.start <= 5));
    assert!(v[4..].iter().all(|b| b.rect.x.start >= 5));
    let mut ids: Vec<usize> = v.iter().map(|b| b.inner).collect();
    ids.sort();
    assert_eq!(ids, vec![0, 1, 2, 3, 4, 5, 6]);
    swap_at(&mut v, 0, 6);
    swap_at(&mut v, 2, 2);
    assert_eq!(v.len(), 7);
}

#[test]
fn retain_mut_unordered_keeps_what_passes() {
    let mut v = vec![1, 2, 3, 4, 5, 6, 7];
    v.retain_mut_unordered(|x: &i32| x % 2 == 1);
    v.sort();
    assert_eq!(v, vec![1, 3, 5, 7]);
    let mut none = vec![2, 4];
    none.retain_mut_unordered(|x: &i32| *x > 10);
    assert!(none.is_empty());
    let mut all = vec![2, 4];
    all.retain_mut_unordered(|_x: &i32| true);
    assert_eq!(all, vec![2, 4]);
}

#[test]
fn slice_split_mut_hands_out_runs() {
    let mut v = vec![1, 1, 2, 2, 2, 3, 4, 4];
    let mut it = SliceSplitMut::new(&mut v, |a: &i32, b: &i32| a == b);
    assert_eq!(it.next().unwrap().to_vec(), vec![1, 1]);
    assert_eq!(it.next_back().unwrap().to_vec(), vec![4, 4]);
    {
        let run = it.next().unwrap();
        assert_eq!(run.to_vec(), vec![2, 2, 2]);
        run[0] = 20;
    }
    assert_eq!(it.next_back().unwrap().to_vec(), vec![3]);
    assert!(it.next().is_none());
    assert!(it.next_back().is_none());
    assert_eq!(v, vec![1, 1, 20, 2, 2, 3, 4, 4]);
}

struct Log {
    pairs: Vec<(char, char)>,
}

impl CollisionHandler for Log {
    type T = BBox<char>;

    fn collide(&mut self, a: PMut<BBox<char>>, b: PMut<BBox<char>>) {
        self.pairs.push((*a.unpack_inner(), *b.unpack_inner()));
    }
}

#[test]
fn for_every_pair_shows_each_pair_once() {
    let mut v = boxes();
    let mut log = Log { pairs: Vec::new() };
    for_every_pair(PMut::new(v.as_mut_slice()), &mut log);
    assert_eq!(
        log.pairs,
        vec![('a', 'b'), ('a', 'c'), ('a', 'd'), ('b', 'c'), ('b', 'd'), ('c', 'd')]
    );
}

#[test]
fn brute_force_finds_the_intersecting_pairs() {
    let mut v = vec![
        bbox(rect(0, 10, 0, 10), 'a'),
        bbox(rect(15, 20, 15, 20), 'b'),
        bbox(rect(5, 15, 5, 15), 'c'),
    ];
    let mut log = Log { pairs: Vec::new() };
    naive::find_colliding_pairs_mut(PMut::new(v.as_mut_slice()), &mut log);
    assert_eq!(log.pairs, vec![('a', 'c'), ('b', 'c')]);
    assert_eq!(naive::find_in_window(&v, &rect(12, 30, 12, 30), RectMode::Intersect), vec![1, 2]);
    assert_eq!(naive::find_in_window(&v, &rect(12, 30, 12, 30), RectMode::Inside), vec![1]);
    assert_eq!(naive::find_in_window(&v, &rect(12, 30, 12, 30), RectMode::NotInside), vec![0, 2]);
}

#[test]
fn scratch_lists_can_be_made_with_or_without_room() {
    let _a = PreVec::new();
    let mut b = PreVec::with_capacity(16);
    let _lists = b.get_empty_vec_mut();
}

#[test]
fn lowest_cost_picks_the_first_least() {
    assert_eq!(handle_lowest(10, &[]), None);
    let benches = [
        Bench { height: 1, cost: 9 },
        Bench { height: 2, cost: 4 },
        Bench { height: 3, cost: 7 },
        Bench { height: 4, cost: 4 },
    ];
    assert_eq!(handle_lowest(10, &benches), Some(BenchRecord { height: 2, num_bots: 10 }));
    let cmp = handle(&[1, 2001, 40_000], &[vec![], benches.to_vec(), vec![benches[2]]]);
    assert_eq!(
        cmp.optimal,
        vec![
            BenchRecord { height: 2, num_bots: 2001 },
            BenchRecord { height: 3, num_bots: 40_000 }
        ]
    );
    assert_eq!(
        cmp.heuristic,
        vec![
            BenchRecord { height: 1, num_bots: 1 },
            BenchRecord { height: 7, num_bots: 2001 },
            BenchRecord { height: 12, num_bots: 40_000 }
        ]
    );
}

struct Numbers {
    pairs: Vec<(u8, u8)>,
}

impl CollisionHandler for Numbers {
    type T = BBox<u8>;

    fn collide(&mut self, a: PMut<BBox<u8>>, b: PMut<BBox<u8>>) {
        self.pairs.push((*a.unpack_inner(), *b.unpack_inner()));
    }
}

#[test]
fn for_every_pair_on_equal_rectangles_keeps_its_order() {
    let mut v: Vec<BBox<u8>> = (0..4).map(|i| bbox(rect(0, 1, 0, 1), i)).collect();
    let mut log = Numbers { pairs: Vec::new() };
    for_every_pair(PMut::new(v.as_mut_slice()), &mut log);
    assert_eq!(log.pairs, vec![(0, 1), (0, 2), (0, 3), (1, 2), (1, 3), (2, 3)]);
    let after: Vec<u8> = v.iter().map(|b| b.inner).collect();
    assert_eq!(after, vec![0, 1, 2, 3]);

    let mut none: Vec<BBox<u8>> = Vec::new();
    let mut one = vec![bbox(rect(0, 1, 0, 1), 9)];
    let mut log = Numbers { pairs: Vec::new() };
    for_every_pair(PMut::new(none.as_mut_slice()), &mut log);
    for_every_pair(PMut::new(one.as_mut_slice()), &mut log);
    assert!(log.pairs.is_empty());
}
