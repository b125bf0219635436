use conway::{point_minmax, Point};

fn minmax_check(points: (Point, Point)) {
    let (a, b) = points;
    assert_eq!(a, (-1, -1));
    assert_eq!(b, (2, 3));
}

#[test]
fn minmax() {
    minmax_check(point_minmax((-1, -1), (2, 3)));
    minmax_check(point_minmax((-1, 3), (2, -1)));
    minmax_check(point_minmax((2, -1), (-1, 3)));
    minmax_check(point_minmax((2, 3), (-1, -1)));
}

#[test]
fn minmax_equal_coordinates() {
    assert_eq!(point_minmax((5, -2), (5, 7)), ((5, -2), (5, 7)));
    assert_eq!(point_minmax((4, 4), (4, 4)), ((4, 4), (4, 4)));
}
