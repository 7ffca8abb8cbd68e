// Coordinates are integers; where the scenarios use fractional positions they are
// written in a finer unit (tenths, or millionths) with the boundary scaled alike.
use quadtree_rs::{Item, Point, QuadTree, Rect};

fn square(side: i32) -> Rect {
    Rect { min_x: 0, min_y: 0, max_x: side, max_y: side }
}

#[test]
fn test_delete_simple() {
    let mut tree = QuadTree::new(square(100), 4);

    let p1 = Point { x: 10, y: 10 };
    let p2 = Point { x: 20, y: 20 };
    let p3 = Point { x: 30, y: 30 };

    tree.insert(Item { id: 1, point: p1 });
    tree.insert(Item { id: 2, point: p2 });
    tree.insert(Item { id: 3, point: p3 });

    assert_eq!(tree.count_items(), 3);

    assert!(tree.delete(2, p2));
    assert_eq!(tree.count_items(), 2);

    assert!(!tree.delete(2, p2));
    assert_eq!(tree.count_items(), 2);

    assert!(tree.delete(1, p1));
    assert_eq!(tree.count_items(), 1);

    assert!(tree.delete(3, p3));
    assert_eq!(tree.count_items(), 0);
}

#[test]
fn test_delete_non_existent() {
    let mut tree = QuadTree::new(square(100), 4);

    tree.insert(Item { id: 1, point: Point { x: 10, y: 10 } });
    tree.insert(Item { id: 2, point: Point { x: 20, y: 20 } });

    assert!(!tree.delete(99, Point { x: 10, y: 10 }));
    assert_eq!(tree.count_items(), 2);

    assert!(!tree.delete(1, Point { x: 30, y: 30 }));
    assert_eq!(tree.count_items(), 2);

    assert!(!tree.delete(1, Point { x: 200, y: 200 }));
    assert_eq!(tree.count_items(), 2);
}

#[test]
fn test_delete_with_split_and_merge() {
    let mut tree = QuadTree::new(square(100), 2);

    tree.insert(Item { id: 1, point: Point { x: 10, y: 10 } });
    tree.insert(Item { id: 2, point: Point { x: 20, y: 20 } });
    tree.insert(Item { id: 3, point: Point { x: 30, y: 30 } });
    tree.insert(Item { id: 4, point: Point { x: 40, y: 40 } });
    tree.insert(Item { id: 5, point: Point { x: 60, y: 60 } });

    let initial_rectangles = tree.get_all_rectangles().len();
    assert!(initial_rectangles > 1);
    assert_eq!(tree.count_items(), 5);

    assert!(tree.delete(3, Point { x: 30, y: 30 }));
    assert!(tree.delete(4, Point { x: 40, y: 40 }));
    assert!(tree.delete(5, Point { x: 60, y: 60 }));

    assert_eq!(tree.count_items(), 2);

    let final_rectangles = tree.get_all_rectangles().len();
    assert!(final_rectangles <= initial_rectangles);
}

#[test]
fn test_delete_deep_tree() {
    // tenths: the boundary is 100 wide, the points run from 10.0 to 10.4
    let mut tree = QuadTree::new(square(1000), 1);

    let points = vec![
        Point { x: 100, y: 100 },
        Point { x: 101, y: 101 },
        Point { x: 102, y: 102 },
        Point { x: 103, y: 103 },
        Point { x: 104, y: 104 },
    ];

    for (i, point) in points.iter().enumerate() {
        tree.insert(Item { id: i as u64, point: *point });
    }

    let initial_count = tree.count_items();
    let initial_rectangles = tree.get_all_rectangles().len();

    assert_eq!(initial_count, 5);
    assert!(initial_rectangles > 5);

    assert!(tree.delete(2, Point { x: 102, y: 102 }));
    assert_eq!(tree.count_items(), 4);

    assert!(tree.delete(3, Point { x: 103, y: 103 }));
    assert!(tree.delete(4, Point { x: 104, y: 104 }));
    assert_eq!(tree.count_items(), 2);

    let final_rectangles = tree.get_all_rectangles().len();
    assert!(final_rectangles <= initial_rectangles);
}

#[test]
fn test_delete_all_points() {
    let mut tree = QuadTree::new(square(100), 3);

    let points = vec![
        Point { x: 10, y: 10 },
        Point { x: 20, y: 20 },
        Point { x: 30, y: 30 },
        Point { x: 80, y: 80 },
        Point { x: 90, y: 10 },
    ];

    for (i, point) in points.iter().enumerate() {
        tree.insert(Item { id: i as u64, point: *point });
    }

    assert_eq!(tree.count_items(), 5);
    let _initial_rectangles = tree.get_all_rectangles().len();

    for (i, point) in points.iter().enumerate() {
        assert!(tree.delete(i as u64, *point));
    }

    assert_eq!(tree.count_items(), 0);

    let final_rectangles = tree.get_all_rectangles().len();
    assert_eq!(final_rectangles, 1);
}

#[test]
fn test_delete_preserves_other_operations() {
    let mut tree = QuadTree::new(square(100), 4);

    tree.insert(Item { id: 1, point: Point { x: 10, y: 10 } });
    tree.insert(Item { id: 2, point: Point { x: 20, y: 20 } });
    tree.insert(Item { id: 3, point: Point { x: 80, y: 80 } });
    tree.insert(Item { id: 4, point: Point { x: 90, y: 90 } });

    assert!(tree.delete(2, Point { x: 20, y: 20 }));

    let query_rect = Rect { min_x: 5, min_y: 5, max_x: 25, max_y: 25 };
    let results = tree.query(query_rect);
    assert_eq!(results.len(), 1);
    assert_eq!(results[0].id, 1);

    let nearest = tree.nearest_neighbor(Point { x: 15, y: 15 });
    assert!(nearest.is_some());
    assert_eq!(nearest.unwrap().id, 1);

    assert!(tree.insert(Item { id: 5, point: Point { x: 50, y: 50 } }));
    assert_eq!(tree.count_items(), 4);
}

#[test]
fn test_delete_exact_point_matching() {
    // millionths: 10.000001 is 10_000_001
    let mut tree = QuadTree::new(square(100_000_000), 4);

    tree.insert(Item { id: 1, point: Point { x: 10_000_000, y: 10_000_000 } });
    tree.insert(Item { id: 2, point: Point { x: 10_000_001, y: 10_000_000 } });
    tree.insert(Item { id: 3, point: Point { x: 10_000_000, y: 10_000_001 } });
    tree.insert(Item { id: 4, point: Point { x: 10_000_000, y: 10_000_000 } });

    assert_eq!(tree.count_items(), 4);

    assert!(tree.delete(1, Point { x: 10_000_000, y: 10_000_000 }));
    assert_eq!(tree.count_items(), 3);

    assert!(tree.delete(4, Point { x: 10_000_000, y: 10_000_000 }));
    assert_eq!(tree.count_items(), 2);

    assert!(!tree.delete(1, Point { x: 10_000_000, y: 10_000_000 }));
    assert_eq!(tree.count_items(), 2);

    assert!(tree.delete(2, Point { x: 10_000_001, y: 10_000_000 }));
    assert!(tree.delete(3, Point { x: 10_000_000, y: 10_000_001 }));
    assert_eq!(tree.count_items(), 0);
}

#[test]
fn test_delete_multiple_items_same_location() {
    let mut tree = QuadTree::new(square(100), 4);

    let location = Point { x: 50, y: 50 };
    tree.insert(Item { id: 10, point: location });
    tree.insert(Item { id: 20, point: location });
    tree.insert(Item { id: 30, point: location });

    assert_eq!(tree.count_items(), 3);

    assert!(tree.delete(20, location));
    assert_eq!(tree.count_items(), 2);

    let query_rect = Rect { min_x: 49, min_y: 49, max_x: 51, max_y: 51 };
    let results = tree.query(query_rect);
    assert_eq!(results.len(), 2);

    let ids: Vec<u64> = results.iter().map(|item| item.id).collect();
    assert!(ids.contains(&10));
    assert!(ids.contains(&30));
    assert!(!ids.contains(&20));

    assert!(tree.delete(10, location));
    assert!(tree.delete(30, location));
    assert_eq!(tree.count_items(), 0);

    assert!(!tree.delete(10, location));
    assert!(!tree.delete(20, location));
    assert!(!tree.delete(30, location));
}
