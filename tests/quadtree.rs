use quadtree_rs::node::CellInfo;
use quadtree_rs::point::Point;
use quadtree_rs::rectangle::Rectangle;
use quadtree_rs::{DuplicateId, QuadTree, QuadTreeConfig};

#[test]
fn add_duplicate() {
    let mut qt = QuadTree::new(Rectangle::new(0, 0, 20, 20), QuadTreeConfig::default());
    qt.add(1, Point::new(10, 10)).unwrap();
    qt.add(2, Point::new(12, 15)).unwrap();
    qt.add(3, Point::new(10, 10)).unwrap();

    assert_eq!(true, qt.add(1, Point::new(11, 10)).is_err());
}

#[test]
fn get_point() {
    let mut qt = QuadTree::new(Rectangle::new(0, 0, 20, 20), QuadTreeConfig::default());
    qt.add(1, Point::new(10, 10)).unwrap();
    qt.add(2, Point::new(12, 15)).unwrap();

    assert_eq!((10, 10), qt.get_point(1).unwrap().as_tuple());
    assert_eq!(true, qt.get_point(100).is_none());
}

#[test]
fn duplicate_keeps_first_point() {
    let mut qt = QuadTree::new(Rectangle::new(0, 0, 20, 20), QuadTreeConfig::default());
    qt.add(7, Point::new(3, 4)).unwrap();
    assert_eq!(Err(DuplicateId { id: 7 }), qt.add(7, Point::new(5, 6)));
    assert_eq!((3, 4), qt.get_point(7).unwrap().as_tuple());
    let total: usize = qt.get_cells_info().iter().map(|c| c.count).sum();
    assert_eq!(1, total);
}

#[test]
fn lookup_after_many_inserts() {
    let mut qt = QuadTree::new(Rectangle::new(0, 0, 64, 64), QuadTreeConfig::new(1, 3));
    for i in 0..200 {
        qt.add(i, Point::new((i * 7) % 64, (i * 13) % 64)).unwrap();
    }
    for i in 0..200 {
        assert_eq!(((i * 7) % 64, (i * 13) % 64), qt.get_point(i).unwrap().as_tuple());
    }
    assert!(qt.get_point(200).is_none());
}

fn brute_force(pts: &[(i32, i32, i32)], area: &Rectangle) -> Vec<i32> {
    let mut ids: Vec<i32> = pts
        .iter()
        .filter(|(_, x, y)| area.x0 <= *x && *x < area.x1 && area.y0 <= *y && *y < area.y1)
        .map(|(id, _, _)| *id)
        .collect();
    ids.sort();
    ids
}

#[test]
fn area_query_matches_scan_after_splits() {
    let mut qt = QuadTree::new(Rectangle::new(0, 0, 100, 100), QuadTreeConfig::new(1, 2));
    let mut pts = Vec::new();
    for i in 0..150 {
        let (x, y) = ((i * 37) % 100, (i * 61) % 100);
        qt.add(i, Point::new(x, y)).unwrap();
        pts.push((i, x, y));
    }
    assert!(qt.get_cells_info().len() > 4);
    let areas = [
        Rectangle::new(0, 0, 100, 100),
        Rectangle::new(10, 20, 55, 70),
        Rectangle::new(50, 50, 51, 51),
        Rectangle::new(-10, -10, 0, 0),
        Rectangle::new(25, 0, 75, 100),
        Rectangle::new(99, 99, 200, 200),
    ];
    for area in areas.iter() {
        let mut found = qt.find_in_area(area);
        found.sort();
        assert_eq!(brute_force(&pts, area), found);
    }
}

#[test]
fn area_query_edges_are_half_open() {
    let mut qt = QuadTree::new(Rectangle::new(0, 0, 20, 20), QuadTreeConfig::default());
    qt.add(1, Point::new(5, 5)).unwrap();
    qt.add(2, Point::new(10, 10)).unwrap();
    let mut found = qt.find_in_area(&Rectangle::new(5, 5, 10, 10));
    found.sort();
    assert_eq!(vec![1], found);
    assert!(qt.find_in_area(&Rectangle::new(0, 0, 5, 5)).is_empty());
}

#[test]
fn cell_counts_sum_to_insertions() {
    let mut qt = QuadTree::new(Rectangle::new(0, 0, 256, 256), QuadTreeConfig::new(0, 5));
    let mut ok = 0;
    for i in 0..300 {
        if qt.add(i % 250, Point::new((i * 11) % 256, (i * 5) % 256)).is_ok() {
            ok += 1;
        }
    }
    assert_eq!(250, ok);
    let cells: Vec<CellInfo> = qt.get_cells_info();
    let total: usize = cells.iter().map(|c| c.count).sum();
    assert_eq!(250, total);
}

#[test]
fn leaves_tile_the_domain_and_respect_capacity() {
    let mut qt = QuadTree::new(Rectangle::new(0, 0, 128, 128), QuadTreeConfig::new(1, 4));
    for i in 0..300 {
        qt.add(i, Point::new((i * 29) % 128, (i * 47) % 128)).unwrap();
    }
    for i in 300..320 {
        qt.add(i, Point::new(3, 3)).unwrap();
    }
    let cells = qt.get_cells_info();
    let mut area: i64 = 0;
    for (k, a) in cells.iter().enumerate() {
        let r = &a.boundary;
        area += ((r.x1 - r.x0) as i64) * ((r.y1 - r.y0) as i64);
        for b in cells.iter().skip(k + 1) {
            let s = &b.boundary;
            let apart = s.x1 <= r.x0 || s.x0 >= r.x1 || s.y1 <= r.y0 || s.y0 >= r.y1;
            assert!(apart);
        }
        if a.count > 4 {
            let found = qt.find_in_area(r);
            let p = qt.get_point(found[0]).unwrap().as_tuple();
            for id in found.iter() {
                assert_eq!(p, qt.get_point(*id).unwrap().as_tuple());
            }
        }
    }
    assert_eq!(128 * 128, area);
}

#[test]
fn config_values() {
    let d = QuadTreeConfig::default();
    assert_eq!((50, 100), (d.min_per_quad(), d.max_per_cell()));
    let c = QuadTreeConfig::new(3, 9);
    assert_eq!((3, 9), (c.min_per_quad(), c.max_per_cell()));
}

#[test]
fn new_tree_has_four_empty_quadrant_leaves() {
    let qt = QuadTree::new(Rectangle::new(0, 10, 10, 40), QuadTreeConfig::default());
    let cells = qt.get_cells_info();
    let expected = vec![
        CellInfo::new(&Rectangle::new(0, 10, 5, 25), 0),
        CellInfo::new(&Rectangle::new(5, 10, 10, 25), 0),
        CellInfo::new(&Rectangle::new(0, 25, 5, 40), 0),
        CellInfo::new(&Rectangle::new(5, 25, 10, 40), 0),
    ];
    assert_eq!(expected, cells);
    assert!(qt.get_point(0).is_none());
}

#[test]
fn rejected_duplicate_leaves_leaves_unchanged() {
    let mut qt = QuadTree::new(Rectangle::new(0, 0, 256, 256), QuadTreeConfig::new(0, 2));
    qt.add(1, Point::new(1, 1)).unwrap();
    qt.add(2, Point::new(2, 2)).unwrap();
    let before = qt.get_cells_info();
    assert!(qt.add(2, Point::new(3, 3)).is_err());
    assert_eq!(before, qt.get_cells_info());
    assert_eq!(4, before.len());
}

#[test]
fn leaf_count_grows_by_threes() {
    let mut qt = QuadTree::new(Rectangle::new(0, 0, 256, 256), QuadTreeConfig::new(0, 5));
    let mut last = qt.get_cells_info().len();
    assert_eq!(4, last);
    for i in 0..5 {
        qt.add(i, Point::new(i, 0)).unwrap();
    }
    assert_eq!(4, qt.get_cells_info().len());
    qt.add(5, Point::new(127, 127)).unwrap();
    assert_eq!(7, qt.get_cells_info().len());
    qt.add(6, Point::new(6, 0)).unwrap();
    assert_eq!(19, qt.get_cells_info().len());
    for i in 7..120 {
        qt.add(i, Point::new((i * 53) % 256, (i * 91) % 256)).unwrap();
        let now = qt.get_cells_info().len();
        assert!(now >= last);
        assert_eq!(0, (now - last) % 3);
        last = now;
    }
}

#[test]
fn coincident_points_do_not_split_tree() {
    let mut qt = QuadTree::new(Rectangle::new(0, 0, 20, 20), QuadTreeConfig::new(50, 100));
    for i in 0..1000 {
        qt.add(i, Point::new(1, 1)).unwrap();
    }
    assert_eq!(4, qt.get_cells_info().len());
    assert_eq!(1000, qt.get_cells_info()[0].count);
    qt.add(1000, Point::new(8, 8)).unwrap();
    assert_eq!(7, qt.get_cells_info().len());
}

#[test]
fn first_insertion_of_an_id_wins() {
    let mut qt = QuadTree::new(Rectangle::new(0, 0, 64, 64), QuadTreeConfig::new(0, 2));
    let ops = [(1, 5, 5), (2, 6, 6), (1, 40, 40), (3, 7, 7), (2, 50, 1), (1, 9, 9)];
    for (id, x, y) in ops.iter() {
        let _ = qt.add(*id, Point::new(*x, *y));
    }
    assert_eq!((5, 5), qt.get_point(1).unwrap().as_tuple());
    assert_eq!((6, 6), qt.get_point(2).unwrap().as_tuple());
    assert_eq!((7, 7), qt.get_point(3).unwrap().as_tuple());
    assert!(qt.get_point(4).is_none());
    let total: usize = qt.get_cells_info().iter().map(|c| c.count).sum();
    assert_eq!(3, total);
}
