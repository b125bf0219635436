use std::sync::Arc;

use conway::{Point, QTree, Updater, AABB};

fn sorted(mut v: Vec<Point>) -> Vec<Point> {
    v.sort();
    v
}

#[test]
fn build_next_keeps_points_and_region() {
    let t = QTree::new(AABB::new((0, 0), 4), &vec![(0, 0), (1, 0), (2, 0), (0, 1), (1, 2)]);
    let next = Updater::build_next(&t);
    assert_eq!(sorted(next.points()), sorted(t.points()));
    assert_eq!(next.boundary().half_dim, 4);
    assert_eq!(next.boundary().center, (0, 0));
}

#[test]
fn run_publishes_fresh_generations() {
    let data = Arc::new(QTree::new(AABB::new((0, 0), 4), &vec![(0, 0), (1, 0), (2, 0), (0, 1), (1, 2)]));
    let mut updater = Updater::new(data.clone());
    let first = updater.current().clone();
    assert!(Arc::ptr_eq(&first, &data));
    assert!(updater.run(true));
    let second = updater.current().clone();
    assert!(!Arc::ptr_eq(&first, &second));
    assert_eq!(sorted(second.points()), sorted(first.points()));
}

#[test]
fn run_stops_when_consumer_is_gone() {
    let data = Arc::new(QTree::new(AABB::new((0, 0), 4), &vec![(1, 1)]));
    let mut updater = Updater::new(data.clone());
    assert!(!updater.run(false));
    assert!(Arc::ptr_eq(updater.current(), &data));
}
