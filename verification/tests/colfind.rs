use std::collections::BTreeSet;

use broccoli::bbox::{bbox, BBox};
use broccoli::geom::{rect, Axis};
use broccoli::pmut::PMut;
use broccoli::query::colfind::oned::{find, find_2d, find_other_parallel3, find_parallel_2d};
use broccoli::query::colfind::CollisionHandler;
use broccoli::util::{sweeper_update, PreVec};

#[derive(Copy, Clone, Debug)]
struct Bot {
    id: usize,
}

struct Test {
    set: BTreeSet<[usize; 2]>,
    calls: usize,
}

impl CollisionHandler for Test {
    type T = BBox<Bot>;

    fn collide(&mut self, a: PMut<BBox<Bot>>, b: PMut<BBox<Bot>>) {
        let [a, b] = [a.unpack_inner().id, b.unpack_inner().id];
        let fin = if a < b { [a, b] } else { [b, a] };
        self.set.insert(fin);
        self.calls += 1;
    }
}

struct Counter {
    counter: usize,
}

impl Counter {
    fn make(&mut self, x1: i64, x2: i64) -> BBox<Bot> {
        let b = BBox::new(rect(x1, x2, 0, 10), Bot { id: self.counter });
        self.counter += 1;
        b
    }
}

#[test]
fn test_parallel() {
    let mut b = Counter { counter: 0 };

    let mut left = [b.make(0, 10), b.make(5, 20), b.make(10, 40)];
    let mut right = [
        b.make(1, 2),
        b.make(-5, -4),
        b.make(2, 3),
        b.make(-5, -4),
        b.make(3, 4),
        b.make(-5, -4),
        b.make(4, 5),
        b.make(-5, -4),
        b.make(5, 6),
        b.make(-5, -4),
        b.make(6, 7),
    ];

    sweeper_update(Axis::X, &mut left);
    sweeper_update(Axis::X, &mut right);

    let mut pa = PreVec::new();
    let mut test1 = Test { set: BTreeSet::new(), calls: 0 };

    let j1: PMut<[BBox<Bot>]> = PMut::new(&mut left);
    let j2: PMut<[BBox<Bot>]> = PMut::new(&mut right);

    find_other_parallel3(&mut pa, Axis::X, (j1, j2), &mut test1);

    let mut test2 = Test { set: BTreeSet::new(), calls: 0 };
    let j1: PMut<[BBox<Bot>]> = PMut::new(&mut right);
    let j2: PMut<[BBox<Bot>]> = PMut::new(&mut left);

    find_other_parallel3(&mut pa, Axis::X, (j1, j2), &mut test2);

    let diff = test1.set.symmetric_difference(&test2.set);
    let num = diff.clone().count();
    let diff2: Vec<_> = diff.collect();
    assert_eq!(num, 0, "{:?}", &diff2);

    // Left 0 is [0,10] and meets the six on the right that lie in [1,7];
    // left 1 is [5,20] and meets [4,5], [5,6], [6,7]; left 2 meets none.
    let expected: BTreeSet<[usize; 2]> = [
        [0, 3], [0, 5], [0, 7], [0, 9], [0, 11], [0, 13],
        [1, 9], [1, 11], [1, 13],
    ]
    .into_iter()
    .collect();
    assert_eq!(test1.set, expected);
    assert_eq!(test1.calls, 9);
    assert_eq!(test2.calls, 9);
}

fn brute(bots: &[BBox<Bot>]) -> BTreeSet<[usize; 2]> {
    let mut set = BTreeSet::new();
    for i in 0..bots.len() {
        for j in (i + 1)..bots.len() {
            let (a, b) = (&bots[i], &bots[j]);
            let meets = !(a.rect.x.end < b.rect.x.start || b.rect.x.end < a.rect.x.start)
                && !(a.rect.y.end < b.rect.y.start || b.rect.y.end < a.rect.y.start);
            if meets {
                let (x, y) = (a.inner.id, b.inner.id);
                set.insert(if x < y { [x, y] } else { [y, x] });
            }
        }
    }
    set
}

fn tree_pairs(bots: &mut [BBox<Bot>]) -> (BTreeSet<[usize; 2]>, usize) {
    let mut tree = broccoli::tree::new(bots);
    let mut h = Test { set: BTreeSet::new(), calls: 0 };
    tree.find_colliding_pairs_mut(&mut h);
    (h.set, h.calls)
}

struct Lcg(u64);

impl Lcg {
    fn next(&mut self, bound: i64) -> i64 {
        self.0 = self.0.wrapping_mul(6364136223846793005).wrapping_add(1442695040888963407);
        ((self.0 >> 33) % (bound as u64)) as i64
    }
}

#[test]
fn tree_agrees_with_brute_force_on_random_boxes() {
    let mut rng = Lcg(7);
    for round in 0..20 {
        let n = 50 + round * 37;
        let mut bots: Vec<BBox<Bot>> = (0..n)
            .map(|id| {
                let x = rng.next(1000);
                let y = rng.next(1000);
                let w = rng.next(60);
                let h = rng.next(60);
                bbox(rect(x, x + w, y, y + h), Bot { id })
            })
            .collect();
        let expected = brute(&bots);
        let (got, calls) = tree_pairs(&mut bots);
        assert_eq!(got, expected);
        assert_eq!(calls, expected.len());
    }
}

#[test]
fn identical_rectangles_report_every_pair() {
    let n = 500;
    let mut bots: Vec<BBox<Bot>> =
        (0..n).map(|id| bbox(rect(3, 9, -2, 4), Bot { id })).collect();
    let (got, calls) = tree_pairs(&mut bots);
    assert_eq!(got.len(), n * (n - 1) / 2);
    assert_eq!(calls, n * (n - 1) / 2);
}

#[test]
fn empty_input_reports_nothing() {
    let mut bots: Vec<BBox<Bot>> = Vec::new();
    let (got, calls) = tree_pairs(&mut bots);
    assert!(got.is_empty());
    assert_eq!(calls, 0);
}

#[test]
fn single_element_does_not_collide_with_itself() {
    let mut bots = vec![bbox(rect(0, 10, 0, 10), Bot { id: 0 })];
    let (got, calls) = tree_pairs(&mut bots);
    assert!(got.is_empty());
    assert_eq!(calls, 0);
}

#[test]
fn contained_rectangle_is_reported_once() {
    let mut bots = vec![
        bbox(rect(0, 100, 0, 100), Bot { id: 0 }),
        bbox(rect(40, 60, 40, 60), Bot { id: 1 }),
    ];
    let (got, calls) = tree_pairs(&mut bots);
    assert_eq!(got.into_iter().collect::<Vec<_>>(), vec![[0, 1]]);
    assert_eq!(calls, 1);
}

#[test]
fn touching_rectangles_collide() {
    let mut bots = vec![
        bbox(rect(0, 5, 0, 5), Bot { id: 0 }),
        bbox(rect(5, 6, 5, 9), Bot { id: 1 }),
        bbox(rect(7, 8, 0, 5), Bot { id: 2 }),
    ];
    let (got, _) = tree_pairs(&mut bots);
    assert_eq!(got.into_iter().collect::<Vec<_>>(), vec![[0, 1]]);
}

use broccoli::query::colfind::inner::{QueryFn, QueryFnMut, SplitHandler};
use broccoli::tree::par::Parallel;

impl SplitHandler for Test {
    fn fork(&mut self) -> (Self, Self) {
        (
            Test { set: BTreeSet::new(), calls: 0 },
            Test { set: BTreeSet::new(), calls: 0 },
        )
    }

    fn join(&mut self, a: Self, b: Self) {
        self.calls += a.calls + b.calls;
        self.set.extend(a.set);
        self.set.extend(b.set);
    }
}

#[test]
fn parallel_and_sequential_report_the_same_pairs() {
    let mut rng = Lcg(2024);
    let mut bots: Vec<BBox<Bot>> = (0..1000)
        .map(|id| {
            let x = rng.next(1000);
            let y = rng.next(1000);
            bbox(rect(x - 10, x + 10, y - 10, y + 10), Bot { id })
        })
        .collect();
    let expected = brute(&bots);
    let mut tree = broccoli::tree::new(&mut bots);
    let mut seq = Test { set: BTreeSet::new(), calls: 0 };
    tree.find_colliding_pairs_mut(&mut seq);
    let mut par = Test { set: BTreeSet::new(), calls: 0 };
    tree.find_colliding_pairs_mut_par(&mut par);
    let mut forced = Test { set: BTreeSet::new(), calls: 0 };
    tree.find_colliding_pairs_mut_par_ext(Parallel::new(3), &mut forced);
    assert_eq!(seq.set, expected);
    assert_eq!(par.set, seq.set);
    assert_eq!(forced.set, seq.set);
    assert_eq!(par.calls, seq.calls);
    assert_eq!(forced.calls, seq.calls);
}

#[test]
fn closures_serve_as_handlers() {
    let mut bots: Vec<BBox<usize>> = vec![
        bbox(rect(0, 10, 0, 10), 0),
        bbox(rect(5, 15, 5, 15), 0),
        bbox(rect(100, 110, 100, 110), 0),
        bbox(rect(8, 9, 8, 9), 0),
    ];
    let mut tree = broccoli::tree::new(&mut bots);
    let mut seen = 0;
    let mut h = QueryFnMut::new(|_ra: &broccoli::geom::Rect, a: &mut usize, _rb: &broccoli::geom::Rect, b: &mut usize| {
        *a += 1;
        *b += 1;
        seen += 1;
    });
    tree.find_colliding_pairs_mut(&mut h);
    let add = |_ra: &broccoli::geom::Rect, a: &mut usize, _rb: &broccoli::geom::Rect, b: &mut usize| {
        *a += 10;
        *b += 10;
    };
    let mut h2 = QueryFn::new(&add);
    tree.find_colliding_pairs_mut_par_ext(Parallel::new(2), &mut h2);
    let mut got: Vec<(i64, usize)> =
        tree.get_elements().iter().map(|b| (b.rect.x.start, b.inner)).collect();
    got.sort();
    assert_eq!(seen, 3);
    assert_eq!(got, vec![(0, 22), (5, 22), (8, 22), (100, 0)]);
}

struct Order {
    calls: Vec<(usize, usize)>,
}

impl CollisionHandler for Order {
    type T = BBox<Bot>;

    fn collide(&mut self, a: PMut<BBox<Bot>>, b: PMut<BBox<Bot>>) {
        self.calls.push((a.unpack_inner().id, b.unpack_inner().id));
    }
}

fn boxes(rects: &[(i64, i64, i64, i64)]) -> Vec<BBox<Bot>> {
    rects.iter().enumerate().map(|(id, &(x1, x2, y1, y2))| bbox(rect(x1, x2, y1, y2), Bot { id })).collect()
}

#[test]
fn sweep_of_two_groups_looks_at_one_axis_only() {
    let mut left = boxes(&[(0, 10, 0, 10)]);
    let mut right = boxes(&[(5, 15, 20, 30)]);
    let mut pa = PreVec::new();

    let mut along = Order { calls: Vec::new() };
    find_other_parallel3(&mut pa, Axis::X, (PMut::new(&mut left), PMut::new(&mut right)), &mut along);
    assert_eq!(along.calls, vec![(0, 0)]);

    let mut both = Order { calls: Vec::new() };
    find_parallel_2d(&mut pa, Axis::X, PMut::new(&mut left), PMut::new(&mut right), &mut both);
    assert_eq!(both.calls, vec![]);

    // Along y the two do not meet, so neither sweep shows them.
    let mut along_y = Order { calls: Vec::new() };
    find_other_parallel3(&mut pa, Axis::Y, (PMut::new(&mut left), PMut::new(&mut right)), &mut along_y);
    assert_eq!(along_y.calls, vec![]);
}

#[test]
fn sweep_of_two_groups_names_the_first_group_first() {
    let mut left = boxes(&[(0, 10, 0, 10), (20, 30, 0, 10)]);
    let mut right = boxes(&[(5, 25, 5, 6), (40, 50, 0, 10)]);
    let mut pa = PreVec::new();
    let mut seen = Order { calls: Vec::new() };
    find_parallel_2d(&mut pa, Axis::X, PMut::new(&mut left), PMut::new(&mut right), &mut seen);
    assert_eq!(seen.calls, vec![(0, 0), (1, 0)]);
}

#[test]
fn sweep_of_one_group_looks_at_one_axis_and_names_the_later_first() {
    let mut bots = boxes(&[(0, 10, 0, 10), (5, 15, 20, 30), (10, 30, 0, 10), (40, 50, 0, 10)]);
    let mut pa = PreVec::new();

    let mut along = Order { calls: Vec::new() };
    find(&mut pa, Axis::X, PMut::new(&mut bots), &mut along);
    assert_eq!(along.calls, vec![(1, 0), (2, 0), (2, 1)]);

    let mut both = Order { calls: Vec::new() };
    find_2d(&mut pa, Axis::X, PMut::new(&mut bots), &mut both);
    assert_eq!(both.calls, vec![(2, 0)]);
}

#[test]
fn sweeps_can_share_their_scratch_lists() {
    let mut bots = boxes(&[(0, 10, 0, 10), (5, 15, 0, 10), (6, 8, 0, 10)]);
    let mut left = boxes(&[(0, 10, 0, 10)]);
    let mut right = boxes(&[(5, 15, 0, 10)]);
    let mut pa = PreVec::with_capacity(4);
    let mut seen = Order { calls: Vec::new() };
    find_2d(&mut pa, Axis::X, PMut::new(&mut bots), &mut seen);
    find_parallel_2d(&mut pa, Axis::X, PMut::new(&mut left), PMut::new(&mut right), &mut seen);
    find_2d(&mut pa, Axis::X, PMut::new(&mut bots), &mut seen);
    assert_eq!(seen.calls.len(), 7);
    assert_eq!(&seen.calls[3..4], &[(0, 0)]);
}

use broccoli::query::colfind::inner::{ColFindRecurser, Splitter};
use broccoli::tree::Vistr;

struct Calls {
    log: Vec<&'static str>,
}

impl Splitter for Calls {
    fn div(&mut self) -> (Self, Self) {
        self.log.push("div");
        (Calls { log: Vec::new() }, Calls { log: Vec::new() })
    }

    fn add(&mut self, a: Self, b: Self) {
        self.log.extend(a.log);
        self.log.extend(b.log);
        self.log.push("add");
    }

    fn leaf_start(&mut self) {
        self.log.push("leaf_start");
    }

    fn leaf_end(&mut self) {
        self.log.push("leaf_end");
    }
}

fn calls_of(height: usize) -> Vec<&'static str> {
    if height <= 1 {
        return vec!["leaf_start", "leaf_end"];
    }
    let mut out = vec!["div"];
    out.extend(calls_of(height - 1));
    out.extend(calls_of(height - 1));
    out.push("add");
    out
}

#[test]
fn splitter_is_taken_through_every_node() {
    let mut rng = Lcg(7);
    let mut bots: Vec<BBox<Bot>> = (0..300)
        .map(|id| {
            let x = rng.next(500);
            let y = rng.next(500);
            bbox(rect(x - 5, x + 5, y - 5, y + 5), Bot { id })
        })
        .collect();
    let expected = brute(&bots);
    let tree = broccoli::tree::new(&mut bots);
    let nodes = tree.get_nodes().to_vec();
    let (height, end, bucket) = {
        let v = tree.vistr();
        (v.height, v.end, v.bucket)
    };
    assert!(height > 1);
    let axis = tree.get_axis();
    let elems = tree.into_elements();

    let mut seq = Test { set: BTreeSet::new(), calls: 0 };
    let mut calls = Calls { log: vec!["before"] };
    let m = Vistr { nodes: &nodes, at: 0, len: nodes.len(), height, end, bucket };
    ColFindRecurser::new().recurse_seq(axis, &mut PreVec::new(), &mut seq, m, elems, &mut calls);
    assert_eq!(seq.set, expected);
    assert_eq!(calls.log[0], "before");
    assert_eq!(&calls.log[1..], &calls_of(height)[..]);

    let mut par = Test { set: BTreeSet::new(), calls: 0 };
    let mut calls = Calls { log: Vec::new() };
    let m = Vistr { nodes: &nodes, at: 0, len: nodes.len(), height, end, bucket };
    ColFindRecurser::new().recurse_par(axis, Parallel::new(2), &mut par, m, elems, &mut calls);
    assert_eq!(par.set, expected);
    assert_eq!(par.calls, seq.calls);
    assert_eq!(calls.log, calls_of(height));
}

use broccoli::geom::Rect;
use broccoli::node::Aabb;
use broccoli::query::naive;
use broccoli::query::tools::for_every_pair;

/// An element that carries its number beside its rectangle.
struct Tagged {
    rect: Rect,
    id: usize,
}

impl Aabb for Tagged {
    fn rect(&self) -> Rect {
        self.rect
    }

    fn get(&self) -> &Rect {
        &self.rect
    }
}

struct Tags {
    seen: Vec<(usize, usize)>,
}

impl CollisionHandler for Tags {
    type T = Tagged;

    fn collide(&mut self, a: PMut<Tagged>, b: PMut<Tagged>) {
        self.seen.push((a.as_ref().id, b.as_ref().id));
    }
}

fn ids(v: &[Tagged]) -> Vec<usize> {
    v.iter().map(|t| t.id).collect()
}

#[test]
fn queries_leave_every_element_in_its_place() {
    // Equal rectangles: only the numbers tell the elements apart.
    let mut v: Vec<Tagged> = (0..40).map(|id| Tagged { rect: rect(0, 10, 0, 10), id }).collect();
    let mut tags = Tags { seen: Vec::new() };

    let before = ids(&v);
    for_every_pair(PMut::new(v.as_mut_slice()), &mut tags);
    assert_eq!(ids(&v), before);
    assert_eq!(tags.seen.len(), 40 * 39 / 2);
    assert_eq!(&tags.seen[..3], &[(0, 1), (0, 2), (0, 3)]);

    naive::find_colliding_pairs_mut(PMut::new(v.as_mut_slice()), &mut tags);
    assert_eq!(ids(&v), before);

    let mut pa = PreVec::new();
    find_2d(&mut pa, Axis::X, PMut::new(v.as_mut_slice()), &mut tags);
    assert_eq!(ids(&v), before);
    let (left, right) = v.split_at_mut(20);
    find_other_parallel3(&mut pa, Axis::Y, (PMut::new(left), PMut::new(right)), &mut tags);
    assert_eq!(ids(&v), before);

    let mut tree = broccoli::tree::new(&mut v);
    let built = ids(tree.get_elements());
    let mut in_tree = Tags { seen: Vec::new() };
    tree.find_colliding_pairs_mut(&mut in_tree);
    assert_eq!(ids(tree.get_elements()), built);
    assert_eq!(in_tree.seen.len(), 40 * 39 / 2);
}
