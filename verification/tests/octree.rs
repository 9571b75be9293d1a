use obj2brs::octree::{Coord, TreeError, VoxelTree};
use obj2brs::Rgba;

fn c(x: isize, y: isize, z: isize) -> Coord {
    Coord { x, y, z }
}

const RED: Rgba = Rgba { r: 255, g: 0, b: 0, a: 255 };
const BLUE: Rgba = Rgba { r: 0, g: 0, b: 255, a: 255 };

#[test]
fn new_tree_is_empty() {
    let mut t: VoxelTree<Rgba> = VoxelTree::new();
    assert_eq!(t.size(), 1);
    assert!(t.contains_bounds(c(0, 0, 0)));
    assert!(t.contains_bounds(c(-1, -1, -1)));
    assert!(!t.contains_bounds(c(1, 0, 0)));
    assert!(t.get_leaf(c(0, 0, 0)).is_none());
    assert!(t.take_any_leaf().is_none());
}

#[test]
fn set_and_get_round_trip() {
    let mut t: VoxelTree<Rgba> = VoxelTree::new();
    assert_eq!(t.set_leaf(c(0, 0, 0), RED), Ok(()));
    assert_eq!(t.set_leaf(c(-1, -1, -1), BLUE), Ok(()));
    assert_eq!(t.get_leaf(c(0, 0, 0)), Some(&RED));
    assert_eq!(t.get_leaf(c(-1, -1, -1)), Some(&BLUE));
    assert_eq!(t.get_leaf(c(0, 0, -1)), None);
}

#[test]
fn set_outside_bounds_is_rejected() {
    let mut t: VoxelTree<Rgba> = VoxelTree::new();
    assert_eq!(t.set_leaf(c(1, 0, 0), RED), Err(TreeError::OutOfBounds));
    assert_eq!(t.set_leaf(c(0, -2, 0), RED), Err(TreeError::OutOfBounds));
    assert!(t.get_leaf(c(0, 0, 0)).is_none());
}

#[test]
fn overwrite_replaces_leaf() {
    let mut t: VoxelTree<Rgba> = VoxelTree::new();
    assert_eq!(t.set_leaf(c(0, 0, 0), RED), Ok(()));
    assert_eq!(t.set_leaf(c(0, 0, 0), BLUE), Ok(()));
    assert_eq!(t.get_leaf(c(0, 0, 0)), Some(&BLUE));
}

#[test]
fn grow_preserves_content() {
    let mut t: VoxelTree<Rgba> = VoxelTree::new();
    assert_eq!(t.set_leaf(c(0, 0, 0), RED), Ok(()));
    assert_eq!(t.set_leaf(c(-1, 0, -1), BLUE), Ok(()));
    t.grow();
    assert_eq!(t.size(), 2);
    assert!(t.contains_bounds(c(1, 1, 1)));
    assert_eq!(t.get_leaf(c(0, 0, 0)), Some(&RED));
    assert_eq!(t.get_leaf(c(-1, 0, -1)), Some(&BLUE));
    assert_eq!(t.get_leaf(c(1, 1, 1)), None);
    t.grow();
    assert_eq!(t.size(), 3);
    assert_eq!(t.get_leaf(c(0, 0, 0)), Some(&RED));
    assert_eq!(t.get_leaf(c(-1, 0, -1)), Some(&BLUE));
}

#[test]
fn grow_to_fit_reaches_requested_bounds() {
    let mut t: VoxelTree<Rgba> = VoxelTree::new();
    assert_eq!(t.set_leaf(c(0, 0, 0), RED), Ok(()));
    t.grow_to_fit(c(-9, -3, -1), c(12, 7, 2));
    assert!(t.contains_bounds(c(-9, -3, -1)));
    assert!(t.contains_bounds(c(12, 7, 2)));
    assert_eq!(t.get_leaf(c(0, 0, 0)), Some(&RED));
    // already large enough: a second call changes nothing
    let s = t.size();
    t.grow_to_fit(c(0, 0, 0), c(1, 1, 1));
    assert_eq!(t.size(), s);
}

#[test]
fn clear_leaf_empties_one_cell() {
    let mut t: VoxelTree<Rgba> = VoxelTree::new();
    assert_eq!(t.set_leaf(c(0, 0, 0), RED), Ok(()));
    assert_eq!(t.set_leaf(c(0, -1, 0), BLUE), Ok(()));
    t.clear_leaf(c(0, 0, 0));
    assert!(t.get_leaf(c(0, 0, 0)).is_none());
    assert_eq!(t.get_leaf(c(0, -1, 0)), Some(&BLUE));
    // clearing an empty or out-of-range cell is harmless
    t.clear_leaf(c(0, 0, 0));
    t.clear_leaf(c(5, 5, 5));
    assert_eq!(t.get_leaf(c(0, -1, 0)), Some(&BLUE));
}

#[test]
fn take_any_leaf_drains_the_tree() {
    let mut t: VoxelTree<Rgba> = VoxelTree::new();
    t.grow_to_fit(c(-2, -2, -2), c(2, 2, 2));
    let cells = [c(0, 0, 0), c(1, 1, 1), c(-2, 0, 2), c(0, 2, -1)];
    for cell in cells {
        assert_eq!(t.set_leaf(cell, RED), Ok(()));
    }
    let mut taken = Vec::new();
    while let Some((pos, v)) = t.take_any_leaf() {
        assert_eq!(v, RED);
        taken.push((pos.x, pos.y, pos.z));
    }
    taken.sort();
    let mut expected: Vec<(isize, isize, isize)> =
        cells.iter().map(|p| (p.x, p.y, p.z)).collect();
    expected.sort();
    assert_eq!(taken, expected);
    assert!(t.take_any_leaf().is_none());
    assert!(t.get_leaf(c(0, 0, 0)).is_none());
}

#[test]
fn take_any_leaf_scans_in_octant_order() {
    // the scan exhausts the octant nearest -infinity before the next:
    // (-1,-1,-1) precedes (0,0,0), which precedes nothing else here
    let mut t: VoxelTree<Rgba> = VoxelTree::new();
    assert_eq!(t.set_leaf(c(0, 0, 0), RED), Ok(()));
    assert_eq!(t.set_leaf(c(-1, -1, -1), BLUE), Ok(()));
    let first = t.take_any_leaf().unwrap();
    assert_eq!((first.0.x, first.0.y, first.0.z), (-1, -1, -1));
    let second = t.take_any_leaf().unwrap();
    assert_eq!((second.0.x, second.0.y, second.0.z), (0, 0, 0));
    assert!(t.take_any_leaf().is_none());
}
