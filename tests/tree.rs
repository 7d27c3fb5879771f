use spatial::linear_quadtree::LinearQuadtree;
use spatial::node::LinearQuadTreeNode;
use spatial::path::{morton_of, GridPoint};
use spatial::{Quadrant, QuadtreeError};

/// The cell of `v` on the deepest grid of `lo..hi`, by twelve midpoint
/// splits; a value on a midpoint goes to the lower half.
fn cell(v: f32, lo: f32, hi: f32) -> u32 {
    let (mut lo, mut hi) = (lo, hi);
    let mut c: u32 = 0;
    for _ in 0..12 {
        let mid = lo + (hi - lo) / 2.0;
        c <<= 1;
        if v <= mid {
            hi = mid;
        } else {
            lo = mid;
            c |= 1;
        }
    }
    c
}

fn grid(x: f32, y: f32, lo: f32, hi: f32) -> GridPoint {
    GridPoint { x: cell(x, lo, hi), y: cell(y, lo, hi) }
}

#[test]
fn end_to_end_two_quadrants() {
    let mut t = LinearQuadtree::new();
    let pa = grid(-0.5, 0.5, -1.0, 1.0);
    let pb = grid(0.5, -0.5, -1.0, 1.0);
    let k1 = t.insert(pa).unwrap();
    let k2 = t.insert(pb).unwrap();
    let a1 = t.address_of(k1).unwrap();
    let a2 = t.address_of(k2).unwrap();
    assert_eq!(a1.coordinate_in_quadrants(), vec![Quadrant::TL]);
    assert_eq!(a2.coordinate_in_quadrants(), vec![Quadrant::BR]);
    assert_eq!(t.values(), vec![pa, pb]);
    assert_eq!(t.bounds().len(), 2);
    assert_eq!(t.get(k1), Some(pa));
    assert_eq!(t.get(k2), Some(pb));
}

#[test]
fn collision_subdivides_once() {
    let mut t = LinearQuadtree::new();
    let pa = grid(0.1, 0.1, 0.0, 1.0);
    let pb = grid(0.4, 0.1, 0.0, 1.0);
    let k1 = t.insert(pa).unwrap();
    let k2 = t.insert(pb).unwrap();
    let leaves = t.bounds_no_branch();
    assert_eq!(leaves.len(), 2);
    assert!(leaves.iter().all(|n| n.level() == 2));
    let all = t.bounds();
    assert_eq!(all.len(), 3);
    let branch = LinearQuadTreeNode::default().child(Quadrant::BL).unwrap();
    assert!(all.contains(&branch));
    assert_eq!(t.address_of(k1).unwrap().coordinate_in_quadrants(), vec![Quadrant::BL, Quadrant::BL]);
    assert_eq!(t.address_of(k2).unwrap().coordinate_in_quadrants(), vec![Quadrant::BL, Quadrant::BR]);
}

#[test]
fn compaction_moves_lone_leaf_up() {
    let mut t = LinearQuadtree::new();
    let pa = grid(0.1, 0.1, 0.0, 1.0);
    let pb = grid(0.4, 0.1, 0.0, 1.0);
    let k1 = t.insert(pa).unwrap();
    let k2 = t.insert(pb).unwrap();
    assert_eq!(t.remove(k1), Some(pa));
    let a2 = t.address_of(k2).unwrap();
    assert_eq!(a2.level(), 1);
    assert_eq!(a2.coordinate_in_quadrants(), vec![Quadrant::BL]);
    assert_eq!(t.bounds(), vec![a2]);
    assert_eq!(t.get(k2), Some(pb));
    assert_eq!(t.get(k1), None);
}

#[test]
fn deep_collision_and_compaction_climb_several_levels() {
    let mut t = LinearQuadtree::new();
    let pa = GridPoint { x: 0, y: 0 };
    let pb = GridPoint { x: 1, y: 0 };
    let pc = GridPoint { x: 4095, y: 4095 };
    let k1 = t.insert(pa).unwrap();
    let k2 = t.insert(pb).unwrap();
    let k3 = t.insert(pc).unwrap();
    assert_eq!(t.address_of(k1).unwrap().level(), 12);
    assert_eq!(t.address_of(k2).unwrap().level(), 12);
    assert_eq!(t.address_of(k3).unwrap().level(), 1);
    assert_eq!(t.bounds().len(), 11 + 2 + 1);
    assert_eq!(t.remove(k2), Some(pb));
    assert_eq!(t.address_of(k1).unwrap().level(), 1);
    assert_eq!(t.bounds().len(), 2);
    assert_eq!(t.values().len(), 2);
}

#[test]
fn insert_then_remove_restores_the_tree() {
    let mut t = LinearQuadtree::new();
    let keep = [grid(0.1, 0.1, 0.0, 1.0), grid(0.4, 0.1, 0.0, 1.0), grid(0.9, 0.8, 0.0, 1.0)];
    for p in keep.iter() {
        t.insert(*p).unwrap();
    }
    let mut before = t.bounds();
    before.sort_by_key(|n| n.location());
    let k = t.insert(grid(0.12, 0.1, 0.0, 1.0)).unwrap();
    let mut during = t.bounds();
    during.sort_by_key(|n| n.location());
    assert_ne!(before, during);
    t.remove(k).unwrap();
    let mut after = t.bounds();
    after.sort_by_key(|n| n.location());
    assert_eq!(before, after);
}

#[test]
fn handles_keep_their_points() {
    let mut t = LinearQuadtree::new();
    let pts: Vec<GridPoint> = (0..40u32).map(|i| GridPoint { x: (i * 97) % 4096, y: (i * 31) % 4096 }).collect();
    let keys: Vec<_> = pts.iter().map(|p| t.insert(*p).unwrap()).collect();
    for i in (0..40).step_by(3) {
        assert_eq!(t.remove(keys[i]), Some(pts[i]));
    }
    for i in 0..40 {
        if i % 3 == 0 {
            assert_eq!(t.get(keys[i]), None);
        } else {
            assert_eq!(t.get(keys[i]), Some(pts[i]));
        }
    }
    // as many leaves as live handles
    assert_eq!(t.bounds_no_branch().len(), t.values().len());
    assert_eq!(t.values().len(), 26);
}

#[test]
fn errors_and_invalid_handles() {
    let mut t = LinearQuadtree::new();
    assert_eq!(t.insert(GridPoint { x: 4096, y: 0 }), Err(QuadtreeError::BoundsError));
    assert_eq!(t.insert(GridPoint { x: 0, y: 5000 }), Err(QuadtreeError::BoundsError));
    let p = GridPoint { x: 7, y: 9 };
    let k = t.insert(p).unwrap();
    assert_eq!(t.insert(p), Err(QuadtreeError::DepthError));
    assert_eq!(t.values(), vec![p]);
    assert_eq!(t.remove(k), Some(p));
    assert_eq!(t.remove(k), None);
    assert_eq!(t.address_of(k), None);
    assert!(t.values().is_empty());
    assert!(t.bounds().is_empty());
}

#[test]
fn deepest_coordinate_interleaves_bits() {
    assert_eq!(morton_of(GridPoint { x: 1, y: 0 }), 1);
    assert_eq!(morton_of(GridPoint { x: 0, y: 1 }), 2);
    assert_eq!(morton_of(GridPoint { x: 4095, y: 4095 }), 0xffffff);
    assert_eq!(morton_of(GridPoint { x: 0b101, y: 0b011 }), 0b011011);
}

#[test]
fn neighbors_find_adjacent_leaves() {
    let mut t = LinearQuadtree::new();
    let pa = grid(-0.5, 0.5, -1.0, 1.0);
    let pb = grid(0.5, -0.5, -1.0, 1.0);
    let k1 = t.insert(pa).unwrap();
    let k2 = t.insert(pb).unwrap();
    assert_eq!(t.neighbors(k1), vec![pb]);
    assert_eq!(t.neighbors(k2), vec![pa]);
    t.remove(k2).unwrap();
    assert!(t.neighbors(k2).is_empty());
    assert!(t.neighbors(k1).is_empty());
}

#[test]
fn neighbors_through_a_coarser_leaf() {
    let mut t = LinearQuadtree::new();
    let pa = grid(0.1, 0.1, 0.0, 1.0);
    let pb = grid(0.4, 0.1, 0.0, 1.0);
    let pc = grid(0.9, 0.1, 0.0, 1.0);
    let k1 = t.insert(pa).unwrap();
    let k2 = t.insert(pb).unwrap();
    t.insert(pc).unwrap();
    // east of pb at level 2 lies inside the level-1 leaf of pc
    let n2 = t.neighbors(k2);
    assert_eq!(n2.len(), 2);
    // ordered by address: the level-1 leaf of pc comes before the level-2 leaf of pa
    assert_eq!(n2, vec![pc, pa]);
    assert!(n2.contains(&pa));
    assert!(n2.contains(&pc));
    assert_eq!(t.neighbors(k1), vec![pb]);
}
