use broccoli::bbox::{bbox, BBox};
use broccoli::geom::{rect, Rect};
use broccoli::pmut::PMut;
use broccoli::query::rect::{ElemFnMut, ElemHandler};

fn three() -> Vec<BBox<usize>> {
    vec![
        bbox(rect(0, 10, 0, 10), 0),
        bbox(rect(15, 20, 15, 20), 1),
        bbox(rect(5, 15, 5, 15), 2),
    ]
}

fn ids(found: Vec<&BBox<usize>>) -> Vec<usize> {
    let mut v: Vec<usize> = found.into_iter().map(|b| b.inner).collect();
    v.sort();
    v
}

#[test]
fn intersect_rect_finds_the_one_box_at_the_corner() {
    let mut bots = three();
    let tree = broccoli::tree::new(&mut bots);
    let found = tree.for_all_intersect_rect(&rect(-5, 1, -5, 1));
    assert_eq!(found.len(), 1);
    assert_eq!(found[0].rect, rect(0, 10, 0, 10));
    assert_eq!(found[0].inner, 0);
}

#[test]
fn in_rect_and_not_in_rect_split_the_elements() {
    let mut bots = three();
    let tree = broccoli::tree::new(&mut bots);
    let window = rect(0, 15, 0, 15);
    assert_eq!(ids(tree.for_all_in_rect(&window)), vec![0, 2]);
    assert_eq!(ids(tree.for_all_not_in_rect(&window)), vec![1]);
    assert_eq!(ids(tree.for_all_intersect_rect(&window)), vec![0, 1, 2]);
}

struct Bump {
    shown: Vec<Rect>,
}

impl ElemHandler for Bump {
    type T = BBox<usize>;

    fn handle(&mut self, a: PMut<BBox<usize>>) {
        let (r, inner) = a.unpack();
        self.shown.push(*r);
        *inner += 100;
    }
}

#[test]
fn mutable_window_query_changes_payloads_only() {
    let mut bots = three();
    {
        let mut tree = broccoli::tree::new(&mut bots);
        let mut h = Bump { shown: Vec::new() };
        tree.for_all_intersect_rect_mut(&rect(12, 30, 12, 30), &mut h);
        assert_eq!(h.shown.len(), 2);
    }
    let mut got: Vec<(usize, Rect)> = bots.iter().map(|b| (b.inner, b.rect)).collect();
    got.sort_by_key(|x| x.0);
    assert_eq!(
        got,
        vec![
            (0, rect(0, 10, 0, 10)),
            (101, rect(15, 20, 15, 20)),
            (102, rect(5, 15, 5, 15)),
        ]
    );
}

struct Lcg(u64);

impl Lcg {
    fn next(&mut self, bound: i64) -> i64 {
        self.0 = self.0.wrapping_mul(6364136223846793005).wrapping_add(1442695040888963407);
        ((self.0 >> 33) % (bound as u64)) as i64
    }
}

#[test]
fn window_queries_agree_with_a_scan_on_random_boxes() {
    let mut rng = Lcg(99);
    let n = 700;
    let mut bots: Vec<BBox<usize>> = (0..n)
        .map(|id| {
            let x = rng.next(2000);
            let y = rng.next(2000);
            bbox(rect(x, x + rng.next(80), y, y + rng.next(80)), id)
        })
        .collect();
    let copy = bots.clone();
    let tree = broccoli::tree::new(&mut bots);
    for _ in 0..40 {
        let x = rng.next(2000);
        let y = rng.next(2000);
        let w = rect(x, x + rng.next(500), y, y + rng.next(500));
        let mut meet: Vec<usize> = Vec::new();
        let mut inside: Vec<usize> = Vec::new();
        let mut outside: Vec<usize> = Vec::new();
        for b in copy.iter() {
            let r = b.rect;
            if !(w.x.end < r.x.start || r.x.end < w.x.start)
                && !(w.y.end < r.y.start || r.y.end < w.y.start)
            {
                meet.push(b.inner);
            }
            if w.x.start <= r.x.start
                && r.x.end <= w.x.end
                && w.y.start <= r.y.start
                && r.y.end <= w.y.end
            {
                inside.push(b.inner);
            } else {
                outside.push(b.inner);
            }
        }
        assert_eq!(ids(tree.for_all_intersect_rect(&w)), meet);
        assert_eq!(ids(tree.for_all_in_rect(&w)), inside);
        assert_eq!(ids(tree.for_all_not_in_rect(&w)), outside);
    }
}

#[test]
fn mutable_inside_and_outside_queries_split_the_elements() {
    let mut bots = three();
    let mut tree = broccoli::tree::new(&mut bots);
    let window = rect(0, 15, 0, 15);
    let mut inside = Bump { shown: Vec::new() };
    tree.for_all_in_rect_mut(&window, &mut inside);
    let mut outside = Bump { shown: Vec::new() };
    tree.for_all_not_in_rect_mut(&window, &mut outside);
    inside.shown.sort_by_key(|r| r.x.start);
    assert_eq!(inside.shown, vec![rect(0, 10, 0, 10), rect(5, 15, 5, 15)]);
    assert_eq!(outside.shown, vec![rect(15, 20, 15, 20)]);
    let finished = tree.into_elements();
    let mut payloads: Vec<usize> = finished.iter().map(|b| b.inner).collect();
    payloads.sort();
    assert_eq!(payloads, vec![100, 101, 102]);
}

#[test]
fn a_closure_serves_as_element_handler() {
    let mut bots = three();
    let mut tree = broccoli::tree::new(&mut bots);
    let mut total = 0;
    let mut h = ElemFnMut::new(|r: &Rect, inner: &mut usize| {
        total += r.x.end;
        *inner = 50;
    });
    tree.for_all_in_rect_mut(&rect(0, 20, 0, 20), &mut h);
    assert_eq!(total, 45);
    assert!(tree.get_elements().iter().all(|b| b.inner == 50));
}
