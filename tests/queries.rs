use quadtree_rs::{Item, Point, QuadTree, Rect};

fn square(side: i32) -> Rect {
    Rect { min_x: 0, min_y: 0, max_x: side, max_y: side }
}

fn ids(items: &[Item]) -> Vec<u64> {
    let mut v: Vec<u64> = items.iter().map(|it| it.id).collect();
    v.sort();
    v
}

#[test]
fn insert_outside_boundary_is_refused() {
    let mut tree = QuadTree::new(square(100), 4);
    assert!(!tree.insert(Item { id: 1, point: Point { x: 100, y: 5 } }));
    assert!(!tree.insert(Item { id: 2, point: Point { x: -1, y: 5 } }));
    assert!(tree.insert(Item { id: 3, point: Point { x: 0, y: 0 } }));
    assert_eq!(tree.count_items(), 1);
}

#[test]
fn full_query_returns_every_inserted_item() {
    let mut tree = QuadTree::new(square(64), 2);
    let mut n: u64 = 0;
    for x in 0..8 {
        for y in 0..8 {
            assert!(tree.insert(Item { id: n, point: Point { x: x * 8 + 1, y: y * 8 + 3 } }));
            n += 1;
        }
    }
    assert_eq!(tree.count_items(), 64);
    assert!(tree.get_all_rectangles().len() > 1);
    let all = tree.query(square(64));
    assert_eq!(ids(&all), (0..64).collect::<Vec<u64>>());
}

#[test]
fn query_takes_points_on_min_edges_only() {
    let mut tree = QuadTree::new(square(100), 1);
    tree.insert(Item { id: 1, point: Point { x: 10, y: 10 } });
    tree.insert(Item { id: 2, point: Point { x: 20, y: 20 } });
    tree.insert(Item { id: 3, point: Point { x: 20, y: 10 } });
    let found = tree.query(Rect { min_x: 10, min_y: 10, max_x: 20, max_y: 20 });
    assert_eq!(ids(&found), vec![1]);
}

#[test]
fn concrete_split_then_delete_scenario() {
    let mut tree = QuadTree::new(square(100), 4);
    let pts = [(1, 10), (2, 20), (3, 30), (4, 40), (5, 60)];
    for (id, c) in pts.iter() {
        assert!(tree.insert(Item { id: *id, point: Point { x: *c, y: *c } }));
    }
    let before = tree.get_all_rectangles().len();
    assert!(before > 1);
    assert!(tree.delete(3, Point { x: 30, y: 30 }));
    assert!(tree.delete(4, Point { x: 40, y: 40 }));
    assert!(tree.delete(5, Point { x: 60, y: 60 }));
    assert_eq!(tree.count_items(), 2);
    assert!(tree.get_all_rectangles().len() <= before);
}

#[test]
fn same_point_items_delete_by_id() {
    let mut tree = QuadTree::new(square(100), 4);
    let p = Point { x: 50, y: 50 };
    for id in [10u64, 20, 30] {
        tree.insert(Item { id, point: p });
    }
    assert!(tree.delete(20, p));
    let found = tree.query(Rect { min_x: 49, min_y: 49, max_x: 51, max_y: 51 });
    assert_eq!(ids(&found), vec![10, 30]);
}

#[test]
fn round_trip_merges_back_to_root() {
    let mut tree = QuadTree::new(square(128), 1);
    let pts: Vec<Point> = (0..20).map(|i| Point { x: (i * 37) % 128, y: (i * 53) % 128 }).collect();
    for (i, p) in pts.iter().enumerate() {
        assert!(tree.insert(Item { id: i as u64, point: *p }));
    }
    assert!(tree.get_all_rectangles().len() > 1);
    for (i, p) in pts.iter().enumerate().rev() {
        assert!(tree.delete(i as u64, *p));
        assert!(!tree.delete(i as u64, *p));
    }
    assert_eq!(tree.count_items(), 0);
    assert_eq!(tree.get_all_rectangles().len(), 1);
}

#[test]
fn max_depth_stops_splitting() {
    let mut tree = QuadTree::new_with_max_depth(square(100), 1, 2);
    for id in 0..10u64 {
        assert!(tree.insert(Item { id, point: Point { x: 7, y: 7 } }));
    }
    assert_eq!(tree.count_items(), 10);
    assert_eq!(tree.get_all_rectangles().len(), 9);
}

#[test]
fn coincident_points_without_depth_limit_terminate() {
    let mut tree = QuadTree::new(square(16), 1);
    for id in 0..5u64 {
        assert!(tree.insert(Item { id, point: Point { x: 3, y: 3 } }));
    }
    assert_eq!(tree.count_items(), 5);
    assert_eq!(tree.query(square(16)).len(), 5);
}

#[test]
fn nearest_neighbors_match_brute_force() {
    let mut tree = QuadTree::new(square(100), 2);
    let pts: Vec<Item> = (0..30u64)
        .map(|i| Item { id: i, point: Point { x: ((i * 17) % 100) as i32, y: ((i * 31) % 100) as i32 } })
        .collect();
    for it in pts.iter() {
        assert!(tree.insert(*it));
    }
    let q = Point { x: 42, y: 58 };
    let key = |it: &Item| {
        let dx = (it.point.x - q.x) as i64;
        let dy = (it.point.y - q.y) as i64;
        (dx * dx + dy * dy, it.id)
    };
    let mut brute = pts.clone();
    brute.sort_by_key(key);
    for k in [0usize, 1, 5, 30, 40] {
        let got = tree.nearest_neighbors(q, k);
        let want: Vec<u64> = brute.iter().take(k).map(|it| it.id).collect();
        assert_eq!(got.iter().map(|it| it.id).collect::<Vec<u64>>(), want);
    }
}

#[test]
fn nearest_neighbor_ties_prefer_smaller_id() {
    let mut tree = QuadTree::new(square(100), 4);
    tree.insert(Item { id: 9, point: Point { x: 40, y: 50 } });
    tree.insert(Item { id: 4, point: Point { x: 60, y: 50 } });
    tree.insert(Item { id: 7, point: Point { x: 50, y: 61 } });
    let got = tree.nearest_neighbor(Point { x: 50, y: 50 }).unwrap();
    assert_eq!(got.id, 4);
    let empty = QuadTree::new(square(100), 4);
    assert!(empty.nearest_neighbor(Point { x: 1, y: 1 }).is_none());
}

#[test]
fn fresh_tree_reports_its_boundary() {
    let tree = QuadTree::new(square(100), 4);
    assert_eq!(tree.get_all_rectangles(), vec![square(100)]);
}

#[test]
fn rectangles_start_at_root_and_split_into_quadrants() {
    let mut tree = QuadTree::new(square(100), 4);
    for (id, c) in [(1u64, 10), (2, 20), (3, 30), (4, 40), (5, 60)] {
        assert!(tree.insert(Item { id, point: Point { x: c, y: c } }));
    }
    let rects = tree.get_all_rectangles();
    assert_eq!(rects.len(), 5);
    assert_eq!(rects[0], square(100));
    assert_eq!(rects[1], Rect { min_x: 0, min_y: 0, max_x: 50, max_y: 50 });
    assert_eq!(rects[4], Rect { min_x: 50, min_y: 50, max_x: 100, max_y: 100 });
    assert!(!tree.insert(Item { id: 6, point: Point { x: 100, y: 0 } }));
    assert!(!tree.delete(9, Point { x: 10, y: 10 }));
    assert_eq!(tree.get_all_rectangles(), rects);
    assert!(tree.delete(5, Point { x: 60, y: 60 }));
    assert_eq!(tree.get_all_rectangles(), vec![square(100)]);
}

#[test]
fn depth_budget_caps_rectangles() {
    let mut tree = QuadTree::new_with_max_depth(square(1 << 20), 1, 1);
    for id in 0..50u64 {
        assert!(tree.insert(Item { id, point: Point { x: 5, y: 5 } }));
    }
    assert_eq!(tree.get_all_rectangles().len(), 5);
}
