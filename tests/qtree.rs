use conway::{Point, QTree, AABB};

fn sorted(mut v: Vec<Point>) -> Vec<Point> {
    v.sort();
    v
}

#[test]
fn containment_round_trip() {
    let pts: Vec<Point> = vec![(0, 0), (3, 2), (-7, 5), (100, -100), (2, 2), (1, 1), (-1, -1), (50, 60)];
    let mut t = QTree::new(AABB::new((0, 0), 4), &vec![]);
    for p in &pts {
        t.insert(*p);
    }
    for p in &pts {
        assert!(t.contains(*p));
    }
    assert!(!t.contains((4, 4)));
    assert!(!t.contains((-100, 100)));
    assert!(!t.contains((2, 3)));
}

#[test]
fn new_seeds_points() {
    let t = QTree::new(AABB::new((0, 0), 4), &vec![(0, 0), (1, 0), (2, 0), (0, 1), (1, 2)]);
    assert_eq!(sorted(t.points()), vec![(0, 0), (0, 1), (1, 0), (1, 2), (2, 0)]);
    assert!(!t.is_leaf());
    assert_eq!(t.boundary().half_dim, 4);
}

#[test]
fn insert_remove_inverse() {
    let mut t = QTree::new(AABB::new((0, 0), 4), &vec![(0, 0), (3, 2), (0, -3), (-2, 1)]);
    let before = sorted(t.points());
    assert!(t.is_leaf());
    t.insert((1, 1));
    assert!(!t.is_leaf());
    t.remove((1, 1));
    assert!(t.is_leaf());
    assert_eq!(sorted(t.points()), before);
}

#[test]
fn remove_absent_point_changes_nothing() {
    let mut t = QTree::new(AABB::new((0, 0), 4), &vec![(0, 0), (3, 2)]);
    t.remove((1, 1));
    t.remove((1000, 1000));
    assert_eq!(sorted(t.points()), vec![(0, 0), (3, 2)]);
    assert_eq!(t.boundary().half_dim, 4);
}

#[test]
fn enumeration_after_interleaved_edits() {
    let mut t = QTree::new(AABB::new((0, 0), 2), &vec![]);
    t.insert((1, 1));
    t.insert((-1, -1));
    t.insert((5, 5));
    t.remove((1, 1));
    t.insert((0, 1));
    t.insert((1, 1));
    t.remove((-1, -1));
    t.insert((-3, 0));
    t.remove((9, 9));
    assert_eq!(sorted(t.points()), vec![(-3, 0), (0, 1), (1, 1), (5, 5)]);
}

#[test]
fn enumeration_order_is_depth_first() {
    let t = QTree::new(AABB::new((0, 0), 4), &vec![(-1, -1), (1, -1), (-1, 1), (1, 1), (2, 2)]);
    // north-east, north-west, south-east, south-west
    assert_eq!(t.points(), vec![(1, 1), (2, 2), (-1, 1), (1, -1), (-1, -1)]);
}

#[test]
fn query_matches_filtered_enumeration() {
    let pts: Vec<Point> = vec![(0, 0), (3, 2), (0, -3), (0, -4), (2, 2), (-3, 3), (1, -1), (7, 7)];
    let t = QTree::new(AABB::new((0, 0), 4), &pts);
    let area = AABB::new((1, 1), 2);
    let expected: Vec<Point> = t.points().into_iter().filter(|p| area.contains(*p)).collect();
    assert_eq!(t.query(&area), expected);
    assert_eq!(sorted(t.query(&area)), vec![(0, 0), (1, -1), (2, 2)]);
    assert!(t.query(&AABB::new((100, 100), 4)).is_empty());
}

#[test]
fn query_independent_of_shape() {
    let pts: Vec<Point> = vec![(0, 0), (1, 1), (-2, 3), (3, 3), (2, 3), (3, 2)];
    let shallow = QTree::new(AABB::new((0, 0), 4), &pts);
    let deep = QTree::new(AABB::new((0, 0), 1024), &pts);
    let area = AABB::new((0, 0), 2);
    assert_eq!(sorted(shallow.query(&area)), sorted(deep.query(&area)));
    assert_eq!(sorted(shallow.query(&area)), vec![(0, 0), (1, 1)]);
    let everything = AABB::new((0, 0), 4);
    assert_eq!(sorted(shallow.query(&everything)), sorted(deep.query(&everything)));
    assert_eq!(sorted(deep.query(&everything)), sorted(pts.clone()));
}

#[test]
fn capacity_split_and_merge() {
    let mut t = QTree::new(AABB::new((0, 0), 4), &vec![(0, 0), (1, 0), (2, 0), (3, 0)]);
    assert!(t.is_leaf());
    t.insert((3, 3));
    assert!(!t.is_leaf());
    t.insert((-3, -3));
    t.remove((0, 0));
    assert!(!t.is_leaf());
    t.remove((1, 0));
    assert!(t.is_leaf());
    assert_eq!(sorted(t.points()), vec![(-3, -3), (2, 0), (3, 0), (3, 3)]);
}

#[test]
fn deep_subdivision_in_one_corner() {
    let mut t = QTree::new(AABB::new((0, 0), 16), &vec![]);
    let pts: Vec<Point> = vec![(0, 0), (0, 1), (1, 0), (1, 1), (2, 2)];
    for p in &pts {
        t.insert(*p);
    }
    assert!(!t.is_leaf());
    assert_eq!(sorted(t.points()), sorted(pts.clone()));
    for p in &pts {
        assert!(t.contains(*p));
    }
    t.remove((2, 2));
    assert!(t.is_leaf());
}

#[test]
fn boundary_growth() {
    let mut t = QTree::new(AABB::new((0, 0), 4), &vec![(0, 0), (3, 2), (-1, -4)]);
    t.insert((9, 6));
    assert_eq!(t.boundary().half_dim, 16);
    assert_eq!(t.boundary().center, (0, 0));
    assert!(t.contains((9, 6)));
    assert!(t.contains((0, 0)));
    assert!(t.contains((3, 2)));
    assert!(t.contains((-1, -4)));
}

#[test]
fn boundary_growth_negative_coordinates() {
    let mut t = QTree::new(AABB::new((0, 0), 4), &vec![(1, 1)]);
    t.insert((-9, -3));
    assert_eq!(t.boundary().half_dim, 16);
    assert!(t.contains((-9, -3)));
    assert!(t.contains((1, 1)));
}

#[test]
fn boundary_growth_on_power_of_two_edge() {
    let mut t = QTree::new(AABB::new((0, 0), 4), &vec![]);
    t.insert((16, 0));
    assert_eq!(t.boundary().half_dim, 32);
    assert!(t.contains((16, 0)));
}

#[test]
fn boundary_growth_off_center() {
    let mut t = QTree::new(AABB::new((100, 100), 2), &vec![]);
    t.insert((-100, -100));
    assert_eq!(t.boundary().center, (100, 100));
    assert_eq!(t.boundary().half_dim, 256);
    assert!(t.contains((-100, -100)));
}

#[test]
fn boundary_growth_extremes() {
    let mut t = QTree::new(AABB::new((i32::MAX as i64, 0), 1), &vec![]);
    t.insert((i32::MIN, i32::MIN));
    t.insert((i32::MAX, i32::MAX));
    assert_eq!(t.boundary().half_dim, 0x1_0000_0000);
    assert!(t.contains((i32::MIN, i32::MIN)));
    assert!(t.contains((i32::MAX, i32::MAX)));
}

#[test]
fn concrete_split_and_collapse() {
    let mut t = QTree::new(AABB::new((0, 0), 4), &vec![]);
    t.insert((0, 0));
    t.insert((3, 2));
    t.insert((0, -3));
    t.insert((0, -4));
    assert!(t.is_leaf());
    t.insert((2, 2));
    assert!(!t.is_leaf());
    t.insert((2, 2));
    assert!(!t.is_leaf());
    assert_eq!(sorted(t.points()), vec![(0, -4), (0, -3), (0, 0), (2, 2), (3, 2)]);
    t.remove((2, 2));
    assert!(t.is_leaf());
    assert_eq!(sorted(t.points()), vec![(0, -4), (0, -3), (0, 0), (3, 2)]);
}

#[test]
fn unit_region_holds_four_points() {
    let t = QTree::new(AABB::new((0, 0), 1), &vec![(-1, -1), (-1, 0), (0, -1), (0, 0)]);
    assert!(t.is_leaf());
    assert_eq!(t.boundary().half_dim, 1);
}

#[test]
fn odd_half_dimension_keeps_every_point() {
    let mut t = QTree::new(AABB::new((0, 0), 3), &vec![]);
    let mut pts: Vec<Point> = vec![];
    for x in -3..3 {
        for y in -3..3 {
            pts.push((x, y));
            t.insert((x, y));
        }
    }
    assert_eq!(t.boundary().half_dim, 3);
    assert_eq!(sorted(t.points()), sorted(pts.clone()));
    for p in &pts {
        assert!(t.contains(*p));
    }
    assert_eq!(sorted(t.query(&AABB::new((2, 2), 1))), vec![(1, 1), (1, 2), (2, 1), (2, 2)]);
    for p in &pts[4..] {
        t.remove(*p);
    }
    assert!(t.is_leaf());
    assert_eq!(sorted(t.points()), sorted(pts[..4].to_vec()));
}
