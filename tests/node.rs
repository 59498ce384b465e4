use quadtree_rs::node::{CellInfo, Node, Quad};
use quadtree_rs::point::Point;
use quadtree_rs::rectangle::Rectangle;
use quadtree_rs::QuadTreeConfig;

#[test]
fn quad_new_right_cell_boundaries() {
    let quad = Quad::new(QuadTreeConfig::default(), Rectangle::new(0, 10, 10, 40));
    let cells_info = quad
        .get_cells_info()
        .iter()
        .map(|ci| ci.boundary.to_text())
        .collect::<Vec<String>>();

    assert_eq!("((0, 10) - (5, 25))", cells_info[0]);
    assert_eq!("((5, 10) - (10, 25))", cells_info[1]);
    assert_eq!("((0, 25) - (5, 40))", cells_info[2]);
    assert_eq!("((5, 25) - (10, 40))", cells_info[3]);
}

#[test]
fn quad_replace_child() {
    let mut quad = Quad::new(QuadTreeConfig::default(), Rectangle::new(0, 10, 10, 40));

    // Each quadrant is a cell, so 4 cells total
    assert_eq!(4, quad.get_cells_info().len());

    // replace the first quadrant with another quad
    let quad2 = Quad::new(QuadTreeConfig::default(), Rectangle::new(0, 5, 10, 25));
    quad.replace_child(0, Node::Quad(quad2));

    // Now the first quadrant has 4 cells plus the other 3 quadrants
    assert_eq!(7, quad.get_cells_info().len());
}

#[test]
fn quad_split() {
    let mut quad = Quad::new(QuadTreeConfig::new(0, 5), Rectangle::new(0, 0, 256, 256));

    for i in 0..5 {
        quad.add(i, Point::new(i, 0));
    }

    assert_eq!(4, quad.get_cells_info().len());

    quad.add(5, Point::new(127, 127));
    assert_eq!(7, quad.get_cells_info().len());

    quad.add(6, Point::new(6, 0));
    assert_eq!(19, quad.get_cells_info().len());

    quad.add(7, Point::new(7, 7));
    let cell_boundary = Rectangle::new(4, 4, 8, 8);

    let cell_count = quad
        .get_cells_info()
        .iter()
        .find(|&cell| cell.boundary == cell_boundary)
        .expect("The cell was not found, something is wrong")
        .count;

    assert_eq!(1, cell_count);
}

#[test]
fn find_in_area_all() {
    // The child boundary will be (0, 0, 10, 10)
    let mut quad = Quad::new(QuadTreeConfig::default(), Rectangle::new(0, 0, 20, 20));
    let mut ch = quad.children.remove(0);

    ch = ch.add(1, Point::new(0, 0));
    ch = ch.add(2, Point::new(0, 9));
    ch = ch.add(3, Point::new(9, 0));
    ch = ch.add(4, Point::new(5, 5));

    let mut points = ch.find_in_area(&Rectangle::new(-1, -1, 15, 15));
    points.sort();

    assert_eq!(vec![1, 2, 3, 4], points);
}

#[test]
fn find_in_area() {
    // The child boundary will be (0, 0, 10, 10)
    let mut quad = Quad::new(QuadTreeConfig::default(), Rectangle::new(0, 0, 20, 20));
    let mut ch = quad.children.remove(0);

    ch = ch.add(1, Point::new(0, 0));
    ch = ch.add(2, Point::new(0, 8));
    ch = ch.add(3, Point::new(8, 0));
    ch = ch.add(4, Point::new(5, 5));

    let mut points = ch.find_in_area(&Rectangle::new(0, 0, 9, 9));
    points.sort();
    assert_eq!(vec![1, 2, 3, 4], points);

    let points = ch.find_in_area(&Rectangle::new(5, 5, 6, 6));
    assert_eq!(vec![4], points);

    let points = ch.find_in_area(&Rectangle::new(4, 4, 5, 5));
    assert_eq!(true, points.is_empty());

    let mut points = ch.find_in_area(&Rectangle::new(0, 0, 6, 6));
    points.sort();
    assert_eq!(vec![1, 4], points);
}

#[test]
fn same_location() {
    // The child boundary will be (0, 0, 10, 10)
    let mut quad = Quad::new(QuadTreeConfig::new(50, 100), Rectangle::new(0, 0, 20, 20));

    // All those points are in the same location, so this shouldn't trigger a split of the quad,
    // or it would cause infinite recursion.
    for i in 0..1000 {
        quad.add(i, Point::new(1, 1));
    }

    assert_eq!(4, quad.get_cells_info().len());

    // now, if we add just an extra point, it should split the quad
    quad.add(1000, Point::new(8, 8));
    assert_eq!(7, quad.get_cells_info().len());
}

#[test]
fn cell_splits_only_past_capacity() {
    let mut cell = quadtree_rs::node::Cell::new(QuadTreeConfig::new(0, 2), Rectangle::new(0, 0, 8, 8));
    assert!(cell.add(1, Point::new(1, 1)).is_none());
    assert!(cell.add(2, Point::new(6, 6)).is_none());
    let quad = cell.add(3, Point::new(6, 1)).expect("a third distinct point splits the leaf");
    let counts: Vec<usize> = quad.get_cells_info().iter().map(|c| c.count).collect();
    assert_eq!(vec![1, 1, 0, 1], counts);
    assert_eq!(3, cell.get_cells_info()[0].count);
}

#[test]
fn coincident_points_stay_in_one_leaf() {
    let mut cell = quadtree_rs::node::Cell::new(QuadTreeConfig::new(0, 1), Rectangle::new(0, 0, 8, 8));
    for i in 0..10 {
        assert!(cell.add(i, Point::new(2, 3)).is_none());
    }
    assert_eq!(10, cell.get_cells_info()[0].count);
}

#[test]
fn cell_info_new() {
    let b = Rectangle::new(1, 2, 3, 4);
    let info = CellInfo::new(&b, 9);
    assert_eq!(b, info.boundary);
    assert_eq!(9, info.count);
}

#[test]
fn node_text() {
    let mut quad = Quad::new(QuadTreeConfig::default(), Rectangle::new(0, 0, 2, 2));
    quad.add(1, Point::new(1, 1));
    quad.add(2, Point::new(1, 1));
    let expected = "Quad (boundary: ((0, 0) - (2, 2));\n    q1:Cell(boundary: ((0, 0) - (1, 1)), points: 0),\n    q2:Cell(boundary: ((1, 0) - (2, 1)), points: 0),\n    q3:Cell(boundary: ((0, 1) - (1, 2)), points: 0),\n    q4:Cell(boundary: ((1, 1) - (2, 2)), points: 2))";
    assert_eq!(expected, quad.to_text());
    assert_eq!(expected, Node::Quad(quad).to_text());
}

#[test]
fn cell_text_counts_points() {
    let mut cell = quadtree_rs::node::Cell::new(QuadTreeConfig::default(), Rectangle::new(-5, 0, 5, 10));
    for i in 0..12 {
        cell.add(i, Point::new(i % 5, i % 7));
    }
    assert_eq!("Cell(boundary: ((-5, 0) - (5, 10)), points: 12)", cell.to_text());
}
