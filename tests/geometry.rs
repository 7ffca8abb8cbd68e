use quadtree_rs::{dist_sq_point_to_rect, dist_sq_points, Point, Rect};

fn unit() -> Rect {
    Rect { min_x: 0, min_y: 0, max_x: 10, max_y: 10 }
}

#[test]
fn contains_is_half_open() {
    let r = unit();
    assert!(r.contains(&Point { x: 0, y: 0 }));
    assert!(r.contains(&Point { x: 9, y: 9 }));
    assert!(!r.contains(&Point { x: 10, y: 5 }));
    assert!(!r.contains(&Point { x: 5, y: 10 }));
    assert!(!r.contains(&Point { x: -1, y: 5 }));
}

#[test]
fn touching_rects_do_not_intersect() {
    let a = unit();
    let edge = Rect { min_x: 10, min_y: 0, max_x: 20, max_y: 10 };
    let corner = Rect { min_x: 10, min_y: 10, max_x: 20, max_y: 20 };
    let overlapping = Rect { min_x: 9, min_y: 9, max_x: 20, max_y: 20 };
    assert!(!a.intersects(&edge));
    assert!(!edge.intersects(&a));
    assert!(!a.intersects(&corner));
    assert!(a.intersects(&overlapping));
    assert!(overlapping.intersects(&a));
}

#[test]
fn squared_distances_are_exact() {
    assert_eq!(dist_sq_points(&Point { x: 1, y: 2 }, &Point { x: 4, y: 6 }), 25);
    assert_eq!(dist_sq_points(&Point { x: i32::MIN, y: 0 }, &Point { x: i32::MAX, y: 0 }), 18446744065119617025);
    let r = unit();
    assert_eq!(dist_sq_point_to_rect(&Point { x: 5, y: 5 }, &r), 0);
    assert_eq!(dist_sq_point_to_rect(&Point { x: 10, y: 10 }, &r), 0);
    assert_eq!(dist_sq_point_to_rect(&Point { x: 13, y: 5 }, &r), 9);
    assert_eq!(dist_sq_point_to_rect(&Point { x: -3, y: 14 }, &r), 25);
}
