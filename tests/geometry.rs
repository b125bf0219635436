use conway::{QTree, AABB};

#[test]
fn contains_is_half_open() {
    let b = AABB::new((0, 0), 4);
    assert!(b.contains((0, 0)));
    assert!(b.contains((-4, -4)));
    assert!(b.contains((3, 3)));
    assert!(!b.contains((4, 0)));
    assert!(!b.contains((0, 4)));
    assert!(!b.contains((-5, 0)));
}

#[test]
fn contains_around_offset_center() {
    let b = AABB::new((10, -10), 2);
    assert!(b.contains((8, -12)));
    assert!(b.contains((11, -9)));
    assert!(!b.contains((12, -10)));
    assert!(!b.contains((10, -13)));
}

#[test]
fn intersects_is_symmetric_and_half_open() {
    let a = AABB::new((0, 0), 2);
    let touching = AABB::new((4, 0), 2);
    let overlapping = AABB::new((3, 1), 2);
    let far = AABB::new((100, 100), 5);
    assert!(!a.intersects(&touching));
    assert!(!touching.intersects(&a));
    assert!(a.intersects(&overlapping));
    assert!(overlapping.intersects(&a));
    assert!(!a.intersects(&far));
    assert!(!far.intersects(&a));
    assert!(a.intersects(&a));
}

#[test]
fn contains_extreme_points() {
    let b = AABB::new((0, 0), 0x1_0000_0000);
    assert!(b.contains((i32::MIN, i32::MIN)));
    assert!(b.contains((i32::MAX, i32::MAX)));
}

#[test]
fn fits_root_needs_positive_bounded_half_dim_and_small_center() {
    assert!(QTree::fits_root(&AABB::new((0, 0), 4)));
    assert!(QTree::fits_root(&AABB::new((-7, 12), 1)));
    assert!(QTree::fits_root(&AABB::new((0, 0), 6)));
    assert!(QTree::fits_root(&AABB::new((i32::MIN as i64, i32::MAX as i64), 0x0800_0000_0000_0000)));
    assert!(!QTree::fits_root(&AABB::new((0, 0), 0x0800_0000_0000_0001)));
    assert!(!QTree::fits_root(&AABB { center: (0, 0), half_dim: 0 }));
    assert!(!QTree::fits_root(&AABB::new((i32::MAX as i64 + 1, 0), 4)));
}
