use spatial::node::LinearQuadTreeNode;
use spatial::{Quadrant, QuadtreeError};

#[test]
fn linear_quadtree_key_test_location_level() {
    let node1 = LinearQuadTreeNode::from_location(0b00000111111001000000000000000000);
    let node2 = LinearQuadTreeNode::new(0b111001000000000000000000, 7);

    assert_eq!(node1, node2);

    assert_eq!(node1.quadrant_at_level(1), Quadrant::TR);
    assert_eq!(node1.quadrant_at_level(2), Quadrant::TL);
    assert_eq!(node1.quadrant_at_level(3), Quadrant::BR);
    assert_eq!(node1.quadrant_at_level(4), Quadrant::BL);
    assert_eq!(node1.level(), 7);
}

#[test]
fn linear_quadtree_node_test_location_level() {
    let node1 = LinearQuadTreeNode::from_location(0b00000111111001000000000000000000);
    let node2 = LinearQuadTreeNode::new(0b111001000000000000000000, 7);

    assert_eq!(node1, node2);

    assert_eq!(node1.quadrant_at_level(1), Quadrant::TR);
    assert_eq!(node1.quadrant_at_level(2), Quadrant::TL);
    assert_eq!(node1.quadrant_at_level(3), Quadrant::BR);
    assert_eq!(node1.quadrant_at_level(4), Quadrant::BL);
    assert_eq!(node1.level(), 7);
}

fn check_neighbors_of_bottom_right_top_left() {
    // level 1: 01 (bottom right), level 2: 10 (top left)
    let node = LinearQuadTreeNode::new(0b011000000000000000000000, 2);
    assert_eq!(node.coordinate_in_quadrants(), vec![Quadrant::BR, Quadrant::TL]);

    let neighbors = node.compute_neighbors();
    assert_eq!(neighbors[0].unwrap().coordinate_in_quadrants(), vec![Quadrant::BR, Quadrant::TR], "east");
    assert_eq!(neighbors[1].unwrap().coordinate_in_quadrants(), vec![Quadrant::TR, Quadrant::BR], "north-east");
    assert_eq!(neighbors[2].unwrap().coordinate_in_quadrants(), vec![Quadrant::TR, Quadrant::BL], "north");
    assert_eq!(neighbors[3].unwrap().coordinate_in_quadrants(), vec![Quadrant::TL, Quadrant::BR], "north-west");
    assert_eq!(neighbors[4].unwrap().coordinate_in_quadrants(), vec![Quadrant::BL, Quadrant::TR], "west");
    assert_eq!(neighbors[5].unwrap().coordinate_in_quadrants(), vec![Quadrant::BL, Quadrant::BR], "south-west");
    assert_eq!(neighbors[6].unwrap().coordinate_in_quadrants(), vec![Quadrant::BR, Quadrant::BL], "south");
    assert_eq!(neighbors[7].unwrap().coordinate_in_quadrants(), vec![Quadrant::BR, Quadrant::BR], "south-east");
    for n in neighbors.iter() {
        assert_eq!(n.unwrap().level(), 2);
    }
}

#[test]
fn linear_quadtree_key_test_quadtree_neighbors() {
    check_neighbors_of_bottom_right_top_left();
}

#[test]
fn linear_quadtree_node_test_quadtree_neighbors() {
    check_neighbors_of_bottom_right_top_left();
}

#[test]
fn test_write_level() {
    let mut node: LinearQuadTreeNode = Default::default();
    node.write_level(Quadrant::BL);
    assert_eq!(node.level(), 1);
    node.write_level(Quadrant::BR);
    assert_eq!(node.level(), 2);
    assert_eq!(node.coordinate_in_quadrants(), vec![Quadrant::BL, Quadrant::BR]);
}

#[test]
fn neighbors_off_the_domain_edge_are_none() {
    // level 1, bottom left: nothing lies to the west or the south
    let node = LinearQuadTreeNode::new(0, 1);
    let n = node.compute_neighbors();
    assert_eq!(n[0].unwrap().coordinate_in_quadrants(), vec![Quadrant::BR]);
    assert_eq!(n[1].unwrap().coordinate_in_quadrants(), vec![Quadrant::TR]);
    assert_eq!(n[2].unwrap().coordinate_in_quadrants(), vec![Quadrant::TL]);
    assert!(n[3].is_none());
    assert!(n[4].is_none());
    assert!(n[5].is_none());
    assert!(n[6].is_none());
    assert!(n[7].is_none());
    // the root has no neighbours
    let root = LinearQuadTreeNode::default();
    assert!(root.compute_neighbors().iter().all(|n| n.is_none()));
}

#[test]
fn east_then_west_returns_to_start() {
    let node = LinearQuadTreeNode::new(0b011000000000000000000000, 2);
    let east = node.compute_neighbors()[0].unwrap();
    assert_eq!(east.compute_neighbors()[4].unwrap(), node);
    let north = node.compute_neighbors()[2].unwrap();
    assert_eq!(north.compute_neighbors()[6].unwrap(), node);
}

#[test]
fn child_and_parent_navigate_the_path() {
    let root = LinearQuadTreeNode::default();
    assert_eq!(root.level(), 0);
    assert_eq!(root.location(), 0);
    let a = root.child(Quadrant::TR).unwrap();
    let b = a.child(Quadrant::BL).unwrap();
    assert_eq!(b.level(), 2);
    assert_eq!(b.coordinate(), 0b1100 << 20);
    assert_eq!(b.coordinate_in_quadrants(), vec![Quadrant::TR, Quadrant::BL]);
    assert_eq!(b.parent(), a);
    assert_eq!(a.parent(), root);
    assert_eq!(root.parent(), root);
    let mut c = b;
    c.remove_level();
    assert_eq!(c, a);
}

#[test]
fn child_at_deepest_level_raises_overflow() {
    let mut n = LinearQuadTreeNode::default();
    for _ in 0..12 {
        n = n.child(Quadrant::TL).unwrap();
    }
    assert_eq!(n.level(), 12);
    assert_eq!(n.overflow(), None);
    let o = n.child(Quadrant::BR).unwrap();
    assert_eq!(o.level(), 12);
    assert_eq!(o.overflow(), Some(1));
    assert_eq!(o.coordinate_in_quadrants(), n.coordinate_in_quadrants());
    assert_eq!(o.parent(), n);
    let mut full = n;
    for _ in 0..15 {
        full.increment_overflow();
    }
    assert_eq!(full.overflow(), Some(15));
    assert_eq!(full.child(Quadrant::TL), Err(QuadtreeError::DepthError));
}

#[test]
fn quadrant_codes() {
    assert_eq!(Quadrant::BL.to_code(), 0);
    assert_eq!(Quadrant::BR.to_code(), 1);
    assert_eq!(Quadrant::TL.to_code(), 2);
    assert_eq!(Quadrant::TR.to_code(), 3);
    assert_eq!(Quadrant::from_bits(6), Quadrant::TL);
    assert_eq!(QuadtreeError::BoundsError.message(), "Point out of bounds");
    assert_eq!(QuadtreeError::DepthError.message(), "Maximum tree recursion depth reached");
}
