use broccoli::bbox::{bbox, BBox};
use broccoli::geom::{rect, Axis, Range};
use broccoli::node::Aabb;
use broccoli::pmut::PMut;
use broccoli::util::sweeper_update;

#[test]
fn closed_intervals_touching_intersect() {
    let a = Range::new(0, 5);
    let b = Range::new(5, 6);
    assert!(a.intersects(&b));
    assert!(b.intersects(&a));
    assert!(!Range::new(0, 4).intersects(&b));
}

#[test]
fn sweeper_update_sorts_by_start() {
    let mut v: Vec<BBox<usize>> = vec![
        bbox(rect(5, 6, 0, 1), 0),
        bbox(rect(-1, 6, 0, 1), 1),
        bbox(rect(3, 3, 0, 1), 2),
    ];
    sweeper_update(Axis::X, &mut v);
    let ids: Vec<usize> = v.iter().map(|b| b.inner).collect();
    assert_eq!(ids, vec![1, 2, 0]);
    assert_eq!(v[0].get().x.start, -1);
}

#[test]
fn sweeper_update_orders_equal_starts_by_end() {
    let mut v: Vec<BBox<usize>> = vec![
        bbox(rect(5, 9, 0, 1), 0),
        bbox(rect(5, 6, 0, 1), 1),
        bbox(rect(1, 2, 0, 1), 2),
        bbox(rect(5, 7, 0, 1), 3),
    ];
    sweeper_update(Axis::X, &mut v);
    let ids: Vec<usize> = v.iter().map(|b| b.inner).collect();
    assert_eq!(ids, vec![2, 1, 3, 0]);
}

#[test]
fn pmut_unpack_inner_changes_payload_only() {
    let mut b = bbox(rect(0, 1, 0, 1), 7usize);
    {
        let p = PMut::new(&mut b);
        *p.unpack_inner() = 9;
    }
    assert_eq!(b.inner, 9);
    assert_eq!(b.rect, rect(0, 1, 0, 1));
}
