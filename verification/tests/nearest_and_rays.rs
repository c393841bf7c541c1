use broccoli::bbox::{bbox, BBox};
use broccoli::geom::{ray, rect, vec2, Ray, Rect, Vec2};
use broccoli::query::knearest::Candidate;
use broccoli::query::naive;
use broccoli::query::raycast::CastResult;

fn three() -> Vec<BBox<usize>> {
    vec![
        bbox(rect(0, 10, 0, 10), 0),
        bbox(rect(15, 20, 15, 20), 1),
        bbox(rect(5, 15, 5, 15), 2),
    ]
}

#[test]
fn two_nearest_to_a_far_corner_come_nearest_first() {
    let mut bots = three();
    let tree = broccoli::tree::new(&mut bots);
    let res = tree.k_nearest(vec2(30, 30), 2);
    assert_eq!(res.len(), 2);
    assert_eq!(res[0].bot.inner, 1);
    assert_eq!(res[1].bot.inner, 2);
    // From (30, 30) to the corner (20, 20) and to the corner (15, 15).
    assert_eq!(res[0].mag, 200);
    assert_eq!(res[1].mag, 450);
}

#[test]
fn ray_along_x_hits_the_first_box() {
    let mut bots = three();
    let tree = broccoli::tree::new(&mut bots);
    let r = ray(vec2(-10, 1), vec2(1, 0));
    match tree.raycast(&r) {
        CastResult::Hit((elems, t)) => {
            assert_eq!(elems.len(), 1);
            assert_eq!(elems[0].inner, 0);
            assert_eq!(t, 10);
        }
        CastResult::NoHit => panic!("the ray meets the box at the origin"),
    }
}

#[test]
fn ray_that_leads_away_hits_nothing() {
    let mut bots = three();
    let tree = broccoli::tree::new(&mut bots);
    let r = Ray { point: vec2(-10, 1), dir: vec2(-1, 0) };
    assert!(matches!(tree.raycast(&r), CastResult::NoHit));
}

#[test]
fn ray_through_nested_boxes_hits_the_outer_one_first() {
    let mut bots = vec![
        bbox(rect(0, 100, 0, 100), 0usize),
        bbox(rect(40, 60, 40, 60), 1usize),
    ];
    let tree = broccoli::tree::new(&mut bots);
    match tree.raycast(&ray(vec2(-10, 50), vec2(1, 0))) {
        CastResult::Hit((elems, t)) => {
            assert_eq!(elems.iter().map(|b| b.inner).collect::<Vec<_>>(), vec![0]);
            assert_eq!(t, 10);
        }
        CastResult::NoHit => panic!("the ray meets the outer box"),
    }
    // From inside the inner box both are met at zero.
    match tree.raycast(&ray(vec2(50, 50), vec2(1, 0))) {
        CastResult::Hit((elems, t)) => {
            let mut ids: Vec<usize> = elems.iter().map(|b| b.inner).collect();
            ids.sort();
            assert_eq!(ids, vec![0, 1]);
            assert_eq!(t, 0);
        }
        CastResult::NoHit => panic!("the origin lies in both boxes"),
    }
}

#[test]
fn queries_on_an_empty_tree_find_nothing() {
    let mut bots: Vec<BBox<usize>> = Vec::new();
    let tree = broccoli::tree::new(&mut bots);
    assert_eq!(tree.get_height(), 1);
    assert_eq!(tree.num_nodes(), 1);
    assert!(tree.k_nearest(vec2(0, 0), 3).is_empty());
    assert!(matches!(tree.raycast(&ray(vec2(0, 0), vec2(1, 1))), CastResult::NoHit));
    assert!(tree.for_all_intersect_rect(&rect(-5, 5, -5, 5)).is_empty());
    assert!(tree.for_all_in_rect(&rect(-5, 5, -5, 5)).is_empty());
    assert!(tree.for_all_not_in_rect(&rect(-5, 5, -5, 5)).is_empty());
}

struct Lcg(u64);

impl Lcg {
    fn next(&mut self, bound: i64) -> i64 {
        self.0 = self.0.wrapping_mul(6364136223846793005).wrapping_add(1442695040888963407);
        ((self.0 >> 33) % (bound as u64)) as i64
    }
}

fn random_boxes(rng: &mut Lcg, n: usize) -> Vec<BBox<usize>> {
    (0..n)
        .map(|id| {
            let x = rng.next(3000) - 1500;
            let y = rng.next(3000) - 1500;
            bbox(rect(x, x + rng.next(40), y, y + rng.next(40)), id)
        })
        .collect()
}

fn dist2(r: &Rect, p: Vec2) -> i128 {
    let cx = p.x.clamp(r.x.start, r.x.end);
    let cy = p.y.clamp(r.y.start, r.y.end);
    let dx = (cx - p.x) as i128;
    let dy = (cy - p.y) as i128;
    dx * dx + dy * dy
}

#[test]
fn nearest_distances_agree_with_a_sort_of_all_distances() {
    let mut rng = Lcg(5);
    let mut bots = random_boxes(&mut rng, 900);
    let copy = bots.clone();
    let tree = broccoli::tree::new(&mut bots);
    for round in 0..30 {
        let p = vec2(rng.next(4000) - 2000, rng.next(4000) - 2000);
        let k = 1 + round * 3;
        let mut all: Vec<i128> = copy.iter().map(|b| dist2(&b.rect, p)).collect();
        all.sort();
        all.truncate(k);
        let got = tree.k_nearest(p, k);
        assert_eq!(got.iter().map(|c| c.mag).collect::<Vec<_>>(), all);
        for c in got.iter() {
            assert_eq!(dist2(&c.bot.rect, p), c.mag);
        }
        let naive: Vec<Candidate> = naive::k_nearest(tree.get_elements(), p, k);
        assert_eq!(naive.iter().map(|c| c.mag).collect::<Vec<_>>(), all);
    }
}

#[test]
fn asking_for_more_neighbours_than_elements_gives_all() {
    let mut bots = three();
    let tree = broccoli::tree::new(&mut bots);
    let res = tree.k_nearest(vec2(0, 0), 10);
    assert_eq!(res.iter().map(|c| c.bot.inner).collect::<Vec<_>>(), vec![0, 2, 1]);
    assert!(tree.k_nearest(vec2(0, 0), 0).is_empty());
}

#[test]
fn tree_raycast_agrees_with_casting_at_every_element() {
    let mut rng = Lcg(77);
    let mut bots = random_boxes(&mut rng, 600);
    let tree = broccoli::tree::new(&mut bots);
    let mut hits = 0;
    for _ in 0..200 {
        let r = ray(
            vec2(rng.next(4000) - 2000, rng.next(4000) - 2000),
            vec2(rng.next(11) - 5, rng.next(11) - 5),
        );
        let naive = naive::raycast(tree.get_elements(), &r);
        let fast = tree.raycast_positions(&r);
        match (naive, fast) {
            (None, None) => {}
            (Some(a), Some(b)) => {
                hits += 1;
                assert_eq!(a.tval, b.tval);
                let mut x = a.found.clone();
                let mut y = b.found.clone();
                x.sort();
                y.sort();
                assert_eq!(x, y);
            }
            _ => panic!("one cast hit and the other did not"),
        }
    }
    assert!(hits > 0);
}

use broccoli::pmut::PMut;
use broccoli::query::knearest::all_rects_in_reach;
use broccoli::query::raycast::all_rects_castable;
use broccoli::query::rect::ElemHandler;
use broccoli::tree::builder::all_rects_valid;

struct Mark {
    order: Vec<usize>,
}

impl ElemHandler for Mark {
    type T = BBox<usize>;

    fn handle(&mut self, a: PMut<BBox<usize>>) {
        let inner = a.unpack_inner();
        self.order.push(*inner);
        *inner += 10;
    }
}

#[test]
fn mutable_nearest_and_ray_queries_show_what_they_find() {
    let mut bots = three();
    let mut tree = broccoli::tree::new(&mut bots);
    let mut near = Mark { order: Vec::new() };
    let found = tree.k_nearest_mut(vec2(30, 30), 2, &mut near);
    assert_eq!(near.order, vec![1, 2]);
    assert_eq!(found.iter().map(|c| c.mag).collect::<Vec<_>>(), vec![200, 450]);
    let mut hit = Mark { order: Vec::new() };
    let res = tree.raycast_mut(&ray(vec2(-10, 1), vec2(1, 0)), &mut hit).unwrap();
    assert_eq!(hit.order, vec![0]);
    assert_eq!(res.tval, 10);
    assert_eq!(res.found.len(), 1);
    let mut miss = Mark { order: Vec::new() };
    assert!(tree.raycast_mut(&ray(vec2(-10, 1), vec2(0, -1)), &mut miss).is_none());
    assert!(miss.order.is_empty());
    let mut payloads: Vec<usize> = tree.get_elements().iter().map(|b| b.inner).collect();
    payloads.sort();
    assert_eq!(payloads, vec![10, 11, 12]);
}

#[test]
fn inputs_can_be_checked_before_they_are_used() {
    let good = three();
    assert!(all_rects_valid(&good));
    assert!(all_rects_in_reach(&good));
    assert!(all_rects_castable(&good));
    let upside_down = vec![bbox(rect(0, 10, 5, 4), 0usize)];
    assert!(!all_rects_valid(&upside_down));
    assert!(!all_rects_castable(&upside_down));
    let far = vec![bbox(rect(0, 0x4000_0001, 0, 1), 0usize)];
    assert!(all_rects_valid(&far));
    assert!(all_rects_in_reach(&far));
    assert!(!all_rects_castable(&far));
    let farther = vec![bbox(rect(0, 0x4000_0000_0000_0000, 0, 1), 0usize)];
    assert!(!all_rects_in_reach(&farther));
    assert!(vec2(0x3FFF_FFFF_FFFF_FFFF, 0).is_in_reach());
    assert!(!vec2(0, -0x4000_0000_0000_0000).is_in_reach());
    assert!(ray(vec2(0x4000_0000, 0), vec2(1, 1)).is_in_reach());
    assert!(!ray(vec2(0, 0), vec2(1, 0x4000_0001)).is_in_reach());
}

use broccoli::query::knearest::{CenterDistance, RectDistance};
use broccoli::query::raycast::RectCast;

#[test]
fn nearest_by_another_measure_agrees_with_brute_force() {
    let mut rng = Lcg(31);
    let mut bots = random_boxes(&mut rng, 700);
    let tree = broccoli::tree::new(&mut bots);
    let by_center = CenterDistance::new();
    let center = |r: &Rect, p: Vec2| -> i128 {
        let cx = (r.x.start + (r.x.end - r.x.start) / 2 - p.x) as i128;
        let cy = (r.y.start + (r.y.end - r.y.start) / 2 - p.y) as i128;
        cx * cx + cy * cy
    };
    for round in 0..25 {
        let p = vec2(rng.next(4000) - 2000, rng.next(4000) - 2000);
        let k = 2 + round;
        let mut all: Vec<i128> = tree.get_elements().iter().map(|b| center(&b.rect, p)).collect();
        all.sort();
        all.truncate(k);
        let fast = tree.k_nearest_by(&by_center, p, k);
        let slow = naive::k_nearest_by(&by_center, tree.get_elements(), p, k);
        assert_eq!(fast.iter().map(|c| c.mag).collect::<Vec<_>>(), all);
        assert_eq!(slow.iter().map(|c| c.mag).collect::<Vec<_>>(), all);
        let plain = tree.k_nearest_by(&RectDistance::new(), p, k);
        assert_eq!(
            plain.iter().map(|c| c.mag).collect::<Vec<_>>(),
            tree.k_nearest_positions(p, k).iter().map(|c| c.mag).collect::<Vec<_>>()
        );
    }
    assert_eq!(
        tree.k_nearest_by(&by_center, vec2(0, 0), 1)[0].mag,
        tree.get_elements().iter().map(|b| center(&b.rect, vec2(0, 0))).min().unwrap()
    );
    let r = ray(vec2(-2000, 3), vec2(3, 0));
    let a = tree.raycast_by(&RectCast::new(), &r).map(|c| c.tval);
    let b = naive::raycast_by(&RectCast::new(), tree.get_elements(), &r).map(|c| c.tval);
    assert_eq!(a, b);
}

use broccoli::query::raycast::take_hit;

#[test]
fn a_hit_replaces_joins_or_leaves_what_was_found() {
    let first = take_hit(None, 4, 10);
    assert_eq!((first.found.clone(), first.tval), (vec![4], 10));
    let same = take_hit(Some(first), 7, 10);
    assert_eq!((same.found.clone(), same.tval), (vec![4, 7], 10));
    let later = take_hit(Some(same), 9, 11);
    assert_eq!((later.found.clone(), later.tval), (vec![4, 7], 10));
    let earlier = take_hit(Some(later), 2, 3);
    assert_eq!((earlier.found, earlier.tval), (vec![2], 3));
}

use broccoli::query::raycast::RayCast;

/// Takes each element for a wall that stands `inner` steps behind the
/// near side of its rectangle.
struct Behind;

impl RayCast for Behind {
    type T = BBox<i64>;

    fn fine(&self, ray: Ray, elem: BBox<i64>) -> Option<i64> {
        self.cast_to_fine(&ray, &elem)
    }

    fn lemma_no_earlier_than_rect(&self, _ray: Ray, _elem: BBox<i64>) {}

    fn cast_to_fine(&self, ray: &Ray, elem: &BBox<i64>) -> Option<i64> {
        ray.cast_to_rect(&elem.rect).map(|t| t + elem.inner)
    }
}

#[test]
fn a_caster_of_ones_own_decides_which_element_is_first() {
    // Along the ray the first box is met at 10 and the second at 20, but
    // the wall of the first stands 15 behind and that of the second 2.
    let mut bots = vec![bbox(rect(10, 12, -5, 5), 15), bbox(rect(20, 22, -5, 5), 2), bbox(rect(40, 42, -5, 5), 0)];
    let r = ray(vec2(0, 0), vec2(1, 0));
    let slow = naive::raycast_by(&Behind, &bots, &r).unwrap();
    assert_eq!((slow.found.clone(), slow.tval), (vec![1], 22));
    let by_rect = naive::raycast(&bots, &r).unwrap();
    assert_eq!((by_rect.found, by_rect.tval), (vec![0], 10));
    let tree = broccoli::tree::new(&mut bots);
    let fast = tree.raycast_by(&Behind, &r).unwrap();
    assert_eq!(fast.tval, 22);
    assert_eq!(fast.found.len(), 1);
    assert_eq!(tree.get_elements()[fast.found[0]].inner, 2);
}

#[test]
fn rays_are_cast_in_whole_steps() {
    let square = rect(0, 10, 0, 10);
    let cast = |px: i64, py: i64, dx: i64, dy: i64| ray(vec2(px, py), vec2(dx, dy)).cast_to_rect(&square);
    assert_eq!(cast(-10, 1, 1, 0), Some(10));
    // Both sides are reached: the later one counts.
    assert_eq!(cast(-10, -10, 3, 2), Some(5));
    // Ten steps of three backward: three whole steps.
    assert_eq!(cast(20, 5, -3, 0), Some(3));
    assert_eq!(cast(5, 30, 1, -7), Some(2));
    assert_eq!(cast(5, -4, -1, 3), Some(1));
    // At the later side the ray has passed the square.
    assert_eq!(cast(-10, -10, 1, 5), None);
    // After three whole steps the ray has not reached the square along x.
    assert_eq!(cast(-7, -3, 2, 1), None);
    // Away from the square, and from inside it.
    assert_eq!(cast(-10, 1, -1, 0), None);
    assert_eq!(cast(3, 3, -1, -1), Some(0));
}
