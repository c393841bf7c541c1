use std::collections::BTreeSet;

use broccoli::bbox::{bbox, BBox};
use broccoli::geom::{ray, rect, vec2, Axis, Rect};
use broccoli::node::Node;
use broccoli::pmut::PMut;
use broccoli::query::colfind::CollisionHandler;
use broccoli::query::knearest::RectDistance;
use broccoli::query::naive;
use broccoli::query::raycast::RectCast;
use broccoli::query::rect::RectMode;
use broccoli::tree::analyze::{
    compute_tree_height_heuristic, nodes_left, num_nodes_of, DEFAULT_NUMBER_ELEM_PER_NODE,
};
use broccoli::tree::builder::TreeBuilder;
use broccoli::tree::collections::{TreeOwned, TreeOwnedInd, TreeRef, TreeRefInd};
use broccoli::tree::par::{switch_depth_for, ParResult, Parallel};
use broccoli::tree::{default_axis, Tree};

struct Pairs {
    set: BTreeSet<(usize, usize)>,
    calls: usize,
}

impl CollisionHandler for Pairs {
    type T = BBox<usize>;

    fn collide(&mut self, a: PMut<BBox<usize>>, b: PMut<BBox<usize>>) {
        let (x, y) = (*a.unpack_inner(), *b.unpack_inner());
        self.set.insert(if x < y { (x, y) } else { (y, x) });
        self.calls += 1;
    }
}

struct Lcg(u64);

impl Lcg {
    fn next(&mut self, bound: i64) -> i64 {
        self.0 = self.0.wrapping_mul(6364136223846793005).wrapping_add(1442695040888963407);
        ((self.0 >> 33) % (bound as u64)) as i64
    }
}

fn random_boxes(seed: u64, n: usize) -> Vec<BBox<usize>> {
    let mut rng = Lcg(seed);
    (0..n)
        .map(|id| {
            let x = rng.next(5000);
            let y = rng.next(5000);
            bbox(rect(x, x + rng.next(90), y, y + rng.next(90)), id)
        })
        .collect()
}

fn brute(bots: &[BBox<usize>]) -> BTreeSet<(usize, usize)> {
    let mut set = BTreeSet::new();
    for a in bots {
        for b in bots {
            if a.inner < b.inner && a.rect.intersects_rect(&b.rect) {
                set.insert((a.inner, b.inner));
            }
        }
    }
    set
}

/// Walks the node array and checks what a tree promises of it.
fn check_invariants(tree: &Tree<BBox<usize>>, n: usize, bucket: usize) {
    let nodes: &[Node] = tree.get_nodes();
    let elems = tree.get_elements();
    let height = tree.get_height();
    assert_eq!(nodes.len(), (1usize << height) - 1);
    assert_eq!(elems.len(), n);
    // The ranges follow one another from 0 to n.
    assert_eq!(nodes[0].start, 0);
    for w in nodes.windows(2) {
        assert_eq!(w[0].end, w[1].start);
    }
    assert_eq!(nodes[nodes.len() - 1].end, n);
    // Every element is there once.
    let mut ids: Vec<usize> = elems.iter().map(|b| b.inner).collect();
    ids.sort();
    assert_eq!(ids, (0..n).collect::<Vec<_>>());
    fn walk(
        nodes: &[Node],
        elems: &[BBox<usize>],
        at: usize,
        height: usize,
        axis: Axis,
        hi: usize,
        bucket: usize,
    ) {
        let node = &nodes[at];
        let own = &elems[node.start..node.end];
        let range = |b: &BBox<usize>| if axis == Axis::X { b.rect.x } else { b.rect.y };
        for w in own.windows(2) {
            let (a, b) = (range(&w[0]), range(&w[1]));
            assert!((a.start, a.end) <= (b.start, b.end));
        }
        match node.cont {
            None => assert!(own.is_empty()),
            Some(c) => {
                assert_eq!(c.start, own.iter().map(|b| range(b).start).min().unwrap());
                assert_eq!(c.end, own.iter().map(|b| range(b).end).max().unwrap());
            }
        }
        if height == 1 {
            assert_eq!(node.end, hi);
            assert!(node.div.is_none());
            return;
        }
        let half = ((1usize << height) - 2) / 2;
        let right = at + 1 + half;
        let mid = nodes[right].start;
        assert_eq!(node.div.is_none(), hi - node.start <= bucket);
        match node.div {
            None => assert_eq!(node.end, hi),
            Some(d) => {
                let mut starts: Vec<i64> =
                    elems[node.start..hi].iter().map(|b| range(b).start).collect();
                starts.sort();
                assert_eq!(d, starts[starts.len() / 2]);
                for b in own {
                    assert!(range(b).start <= d && d <= range(b).end);
                }
                for b in &elems[node.end..mid] {
                    assert!(range(b).end < d);
                }
                for b in &elems[mid..hi] {
                    assert!(range(b).start > d);
                }
            }
        }
        let next = if axis == Axis::X { Axis::Y } else { Axis::X };
        walk(nodes, elems, at + 1, height - 1, next, mid, bucket);
        walk(nodes, elems, right, height - 1, next, hi, bucket);
    }
    walk(nodes, elems, 0, height, tree.get_axis(), n, bucket);
}

#[test]
fn built_trees_keep_their_invariants() {
    for (seed, n) in [(1u64, 0usize), (2, 1), (3, 31), (4, 33), (5, 500), (6, 4000)] {
        let mut bots = random_boxes(seed, n);
        let tree = broccoli::tree::new(&mut bots);
        assert_eq!(
            tree.get_height(),
            compute_tree_height_heuristic(n, DEFAULT_NUMBER_ELEM_PER_NODE)
        );
        assert_eq!(tree.num_nodes(), nodes_left(0, tree.get_height()));
        check_invariants(&tree, n, DEFAULT_NUMBER_ELEM_PER_NODE);
    }
}

#[test]
fn builders_take_axis_height_and_bucket() {
    let mut bots = random_boxes(9, 300);
    let tree = TreeBuilder::with_axis(Axis::X, &mut bots).with_height(5).with_bucket(4).build_seq();
    assert_eq!(tree.get_axis(), Axis::X);
    assert_eq!(tree.get_height(), 5);
    assert_eq!(tree.num_nodes(), 31);
    check_invariants(&tree, 300, 4);
    assert_eq!(default_axis(), Axis::Y);
}

#[test]
fn parallel_build_gives_a_tree_with_the_same_promises() {
    let mut bots = random_boxes(10, 5000);
    let expected = brute(&bots);
    let mut tree = broccoli::tree::new_par(&mut bots);
    check_invariants(&tree, 5000, DEFAULT_NUMBER_ELEM_PER_NODE);
    let mut h = Pairs { set: BTreeSet::new(), calls: 0 };
    tree.find_colliding_pairs_mut(&mut h);
    assert_eq!(h.set, expected);
    assert_eq!(h.calls, expected.len());
    let mut other = random_boxes(10, 5000);
    let by_x = broccoli::tree::with_axis_par(Axis::X, &mut other);
    assert_eq!(by_x.get_axis(), Axis::X);
    check_invariants(&by_x, 5000, DEFAULT_NUMBER_ELEM_PER_NODE);
}

#[test]
fn height_heuristic_doubles_the_bucket_until_it_holds_all() {
    assert_eq!(compute_tree_height_heuristic(0, 32), 1);
    assert_eq!(compute_tree_height_heuristic(32, 32), 1);
    assert_eq!(compute_tree_height_heuristic(33, 32), 2);
    assert_eq!(compute_tree_height_heuristic(64, 32), 2);
    assert_eq!(compute_tree_height_heuristic(65, 32), 3);
    assert_eq!(compute_tree_height_heuristic(1000, 32), 6);
    assert_eq!(compute_tree_height_heuristic(usize::MAX, 1), 20);
    assert_eq!(compute_tree_height_heuristic(7, 0), 20);
    assert_eq!(num_nodes_of(0), 0);
    assert_eq!(num_nodes_of(1), 1);
    assert_eq!(num_nodes_of(4), 15);
    assert_eq!(nodes_left(1, 4), 7);
}

#[test]
fn policy_forks_above_its_switch_depth() {
    assert_eq!(switch_depth_for(1), 1);
    assert_eq!(switch_depth_for(2), 2);
    assert_eq!(switch_depth_for(8), 4);
    assert_eq!(switch_depth_for(9), 5);
    let p = Parallel::new(2);
    let child = match p.next() {
        ParResult::Parallel(a, b) => {
            assert_eq!(a, b);
            assert_eq!(a.current_depth, 1);
            a
        }
        ParResult::Sequential => panic!("depth 0 is above the switch"),
    };
    let grandchild = match child.next() {
        ParResult::Parallel(a, _) => a,
        ParResult::Sequential => panic!("depth 1 is above the switch"),
    };
    assert!(matches!(grandchild.next(), ParResult::Sequential));
    assert!(matches!(Parallel::new(0).next(), ParResult::Sequential));
}

#[test]
fn owned_tree_can_be_returned_and_rebuilt() {
    fn make() -> TreeOwned<BBox<usize>> {
        TreeOwned::new(random_boxes(11, 200))
    }
    let mut owned = make();
    let expected = brute(owned.get_elements());
    {
        let mut tree = owned.as_tree_mut();
        let mut h = Pairs { set: BTreeSet::new(), calls: 0 };
        tree.find_colliding_pairs_mut(&mut h);
        assert_eq!(h.set, expected);
    }
    // Move every box far apart: nothing collides any more.
    for (i, b) in owned.get_elements_raw_mut().iter_mut().enumerate() {
        let at = 1000 * i as i64;
        b.rect = rect(at, at + 1, at, at + 1);
    }
    owned.rebuild();
    let mut tree = owned.as_tree_mut();
    let mut h = Pairs { set: BTreeSet::new(), calls: 0 };
    tree.find_colliding_pairs_mut(&mut h);
    assert!(h.set.is_empty());
    let by_x = TreeOwned::with_axis_par(Axis::X, random_boxes(12, 50));
    assert_eq!(by_x.get_elements().len(), 50);
}

#[test]
fn tree_ref_gives_the_tree_and_the_elements() {
    let mut bots = random_boxes(13, 100);
    let expected = brute(&bots);
    let mut tree = TreeRef::new(&mut bots);
    let mut h = Pairs { set: BTreeSet::new(), calls: 0 };
    tree.as_tree_mut().find_colliding_pairs_mut(&mut h);
    assert_eq!(h.set, expected);
    assert_eq!(tree.get_elements().len(), 100);
    assert_eq!(tree.as_tree().get_axis(), Axis::Y);
    let first = tree.get_elements_mut().get_index_mut(0);
    *first.unpack_inner() = 7777;
    assert_eq!(tree.get_elements()[0].inner, 7777);
}

#[derive(Clone, Debug, PartialEq)]
struct Disk {
    x: i64,
    y: i64,
    hits: usize,
}

#[test]
fn indirection_leaves_the_elements_where_they_are() {
    let disks: Vec<Disk> =
        vec![(0, 0), (15, 0), (100, 100), (5, 5)].into_iter().map(|(x, y)| Disk { x, y, hits: 0 }).collect();
    let around = |d: &Disk| -> Rect { rect(d.x - 10, d.x + 10, d.y - 10, d.y + 10) };
    let mut owned = TreeOwnedInd::new(disks.clone(), &around);
    let mut h = Pairs { set: BTreeSet::new(), calls: 0 };
    owned.as_tree_mut().find_colliding_pairs_mut(&mut h);
    assert_eq!(h.set.iter().copied().collect::<Vec<_>>(), vec![(0, 1), (0, 3), (1, 3)]);
    for &(a, b) in h.set.iter() {
        owned.get_elements_mut()[a].hits += 1;
        owned.get_elements_mut()[b].hits += 1;
    }
    assert_eq!(owned.get_elements().iter().map(|d| d.hits).collect::<Vec<_>>(), vec![2, 2, 0, 2]);
    assert_eq!(owned.get_elements()[2], disks[2]);

    let mut plain = disks.clone();
    let mut by_ref = TreeRefInd::with_axis(Axis::X, &mut plain, &around);
    let mut h2 = Pairs { set: BTreeSet::new(), calls: 0 };
    by_ref.as_tree_mut().find_colliding_pairs_mut(&mut h2);
    assert_eq!(h2.set, h.set);
    by_ref.get_elements_mut()[2].hits = 9;
    assert_eq!(by_ref.get_elements()[2].hits, 9);
    assert_eq!(plain[2].hits, 9);
    assert_eq!(plain[0], disks[0]);
}

#[test]
fn a_node_hands_out_its_own_elements() {
    let mut bots = random_boxes(21, 400);
    let mut tree = TreeBuilder::new(&mut bots).with_height(4).with_bucket(8).build_seq();
    let nodes: Vec<Node> = tree.get_nodes().to_vec();
    for (k, n) in nodes.iter().enumerate() {
        let node = tree.get_node_mut(k);
        assert_eq!(node.cont, n.cont);
        assert_eq!(node.div, n.div);
        assert_eq!(node.range.len(), n.end - n.start);
        let mut it = node.range.iter_mut();
        while let Some(e) = it.next() {
            *e.unpack_inner() = k;
        }
    }
    for (k, n) in nodes.iter().enumerate() {
        assert!(tree.get_elements()[n.start..n.end].iter().all(|b| b.inner == k));
    }
}

#[test]
fn indirection_can_be_built_by_the_pool() {
    let disks: Vec<Disk> = (0..300).map(|i| Disk { x: (i * 37) % 500, y: (i * 91) % 500, hits: 0 }).collect();
    let around = |d: &Disk| -> Rect { rect(d.x - 10, d.x + 10, d.y - 10, d.y + 10) };
    let mut seq = TreeOwnedInd::with_axis(Axis::Y, disks.clone(), &around);
    let mut par = TreeOwnedInd::new_par(disks.clone(), &around);
    let mut a = Pairs { set: BTreeSet::new(), calls: 0 };
    seq.as_tree_mut().find_colliding_pairs_mut(&mut a);
    let mut b = Pairs { set: BTreeSet::new(), calls: 0 };
    par.as_tree_mut().find_colliding_pairs_mut(&mut b);
    assert_eq!(a.set, b.set);
    assert!(!a.set.is_empty());
    assert_eq!(par.get_elements(), &disks[..]);
}

#[test]
fn owned_tree_answers_queries_that_do_not_write() {
    let owned = TreeOwned::new(random_boxes(33, 350));
    let window = rect(1000, 2500, 1000, 2500);
    let mut found = owned.find_in_window(&window, RectMode::Intersect);
    found.sort();
    let expected: Vec<usize> = owned
        .get_elements()
        .iter()
        .enumerate()
        .filter(|(_, b)| b.rect.intersects_rect(&window))
        .map(|(i, _)| i)
        .collect();
    assert_eq!(found, expected);
    let p = vec2(2500, 2500);
    let near = owned.k_nearest_by(&RectDistance::new(), p, 5);
    let slow = naive::k_nearest(owned.get_elements(), p, 5);
    assert_eq!(
        near.iter().map(|c| c.mag).collect::<Vec<_>>(),
        slow.iter().map(|c| c.mag).collect::<Vec<_>>()
    );
    let r = ray(vec2(-5, 2500), vec2(1, 0));
    let hit = owned.raycast_by(&RectCast::new(), &r).map(|c| c.tval);
    let slow_hit = naive::raycast(owned.get_elements(), &r).map(|c| c.tval);
    assert_eq!(hit, slow_hit);
}
