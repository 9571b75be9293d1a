use obj2brs::merge::{
    simplify_lossless, simplify_lossy, scaled_pos, scaled_size, Brick, BrickColor, BrickType,
    PalettedVoxel, SampledBrick,
};
use obj2brs::octree::{Coord, VoxelTree};
use obj2brs::Rgba;

fn c(x: isize, y: isize, z: isize) -> Coord {
    Coord { x, y, z }
}

const RED: Rgba = Rgba { r: 255, g: 0, b: 0, a: 255 };
const BLUE: Rgba = Rgba { r: 0, g: 0, b: 255, a: 255 };

fn vox(rgba: Rgba, palette_index: u32) -> PalettedVoxel {
    PalettedVoxel { rgba, palette_index }
}

fn covers(b: &Brick, x: isize, y: isize, z: isize) -> bool {
    b.x <= x && x < b.x + b.width && b.y <= y && y < b.y + b.height && b.z <= z && z < b.z + b.depth
}

#[test]
fn single_voxel_becomes_one_brick() {
    // a lone red voxel at the origin merges, in either mode, into one
    // 1 x 1 x 1 brick resolving to red
    let mut t: VoxelTree<PalettedVoxel> = VoxelTree::new();
    t.set_leaf(c(0, 0, 0), vox(RED, 3)).unwrap();
    let bricks = simplify_lossless(&mut t, false, BrickType::Microbricks, 5, 200, 4);
    assert_eq!(bricks.len(), 1);
    let b = &bricks[0];
    assert_eq!((b.x, b.y, b.z), (0, 0, 0));
    assert_eq!((b.width, b.height, b.depth), (1, 1, 1));
    assert_eq!(b.color, BrickColor::Unique(RED));
    assert_eq!(b.asset_name_index, 0);
    assert_eq!(b.owner_index, 1);
    assert_eq!(b.material_intensity, 5);
    assert_eq!((b.size_x, b.size_y, b.size_z), (1, 1, 1));
    assert_eq!((b.position_x, b.position_y, b.position_z), (1, 1, 1));
    assert!(t.take_any_leaf().is_none());
}

#[test]
fn single_voxel_snaps_to_palette_index() {
    let mut t: VoxelTree<PalettedVoxel> = VoxelTree::new();
    t.set_leaf(c(0, 0, 0), vox(RED, 3)).unwrap();
    let bricks = simplify_lossless(&mut t, true, BrickType::Microbricks, 5, 200, 4);
    assert_eq!(bricks.len(), 1);
    assert_eq!(bricks[0].color, BrickColor::Index(3));
}

#[test]
fn single_voxel_lossy_carries_its_sample() {
    let mut t: VoxelTree<Rgba> = VoxelTree::new();
    t.set_leaf(c(0, 0, 0), RED).unwrap();
    let bricks: Vec<SampledBrick> = simplify_lossy(&mut t, BrickType::Microbricks, 5, 200);
    assert_eq!(bricks.len(), 1);
    let b = &bricks[0];
    assert_eq!((b.x, b.y, b.z), (0, 0, 0));
    assert_eq!((b.width, b.height, b.depth), (1, 1, 1));
    assert_eq!(b.samples, vec![RED]);
    assert!(t.take_any_leaf().is_none());
}

#[test]
fn adjacent_same_class_voxels_merge_along_z() {
    // two adjacent unit voxels with identical palette classes merge into
    // one brick of extent 2 along the shared axis, 1 on the others
    let mut t: VoxelTree<PalettedVoxel> = VoxelTree::new();
    t.set_leaf(c(0, 0, 0), vox(RED, 2)).unwrap();
    t.set_leaf(c(0, 0, -1), vox(RED, 2)).unwrap();
    let bricks = simplify_lossless(&mut t, true, BrickType::Microbricks, 5, 200, 3);
    assert_eq!(bricks.len(), 1);
    let b = &bricks[0];
    assert_eq!((b.x, b.y, b.z), (0, 0, -1));
    assert_eq!((b.width, b.height, b.depth), (1, 1, 2));
    assert_eq!(b.color, BrickColor::Index(2));
}

#[test]
fn adjacent_same_class_voxels_merge_along_y() {
    let mut t: VoxelTree<PalettedVoxel> = VoxelTree::new();
    t.set_leaf(c(0, -1, 0), vox(RED, 2)).unwrap();
    t.set_leaf(c(0, 0, 0), vox(RED, 2)).unwrap();
    let bricks = simplify_lossless(&mut t, true, BrickType::Microbricks, 5, 200, 3);
    assert_eq!(bricks.len(), 1);
    let b = &bricks[0];
    assert_eq!((b.x, b.y, b.z), (0, -1, 0));
    assert_eq!((b.width, b.height, b.depth), (1, 2, 1));
}

#[test]
fn adjacent_different_class_voxels_stay_apart() {
    let mut t: VoxelTree<PalettedVoxel> = VoxelTree::new();
    t.set_leaf(c(0, 0, 0), vox(RED, 0)).unwrap();
    t.set_leaf(c(0, 0, -1), vox(BLUE, 1)).unwrap();
    let bricks = simplify_lossless(&mut t, true, BrickType::Microbricks, 5, 200, 2);
    assert_eq!(bricks.len(), 2);
    for b in &bricks {
        assert_eq!((b.width, b.height, b.depth), (1, 1, 1));
    }
}

#[test]
fn max_merge_one_forces_one_brick_per_voxel() {
    // a merge limit of 1 yields exactly one brick per non-empty voxel,
    // regardless of adjacency
    let mut t: VoxelTree<PalettedVoxel> = VoxelTree::new();
    let cells = [c(0, 0, 0), c(0, 0, -1), c(0, -1, 0), c(-1, 0, 0)];
    for cell in cells {
        t.set_leaf(cell, vox(RED, 0)).unwrap();
    }
    let bricks = simplify_lossless(&mut t, true, BrickType::Microbricks, 5, 1, 1);
    assert_eq!(bricks.len(), cells.len());
    for b in &bricks {
        assert_eq!((b.width, b.height, b.depth), (1, 1, 1));
    }
    for cell in cells {
        assert_eq!(
            bricks.iter().filter(|b| covers(b, cell.x, cell.y, cell.z)).count(),
            1
        );
    }
}

#[test]
fn max_merge_one_lossy_matches() {
    let mut t: VoxelTree<Rgba> = VoxelTree::new();
    let cells = [c(0, 0, 0), c(0, 0, -1), c(0, -1, 0)];
    for cell in cells {
        t.set_leaf(cell, RED).unwrap();
    }
    let bricks = simplify_lossy(&mut t, BrickType::Microbricks, 5, 1);
    assert_eq!(bricks.len(), cells.len());
    for b in &bricks {
        assert_eq!((b.width, b.height, b.depth), (1, 1, 1));
        assert_eq!(b.samples, vec![RED]);
    }
}

#[test]
fn lossy_merges_mixed_colors_and_keeps_all_samples() {
    // adjacency alone merges in the approximate mode; the differing colors
    // all reach the sample list for averaging
    let mut t: VoxelTree<Rgba> = VoxelTree::new();
    t.set_leaf(c(0, 0, -1), RED).unwrap();
    t.set_leaf(c(0, 0, 0), BLUE).unwrap();
    let bricks = simplify_lossy(&mut t, BrickType::Microbricks, 5, 200);
    assert_eq!(bricks.len(), 1);
    let b = &bricks[0];
    assert_eq!((b.width, b.height, b.depth), (1, 1, 2));
    assert_eq!(b.samples, vec![RED, BLUE]);
}

#[test]
fn exact_mode_covers_an_irregular_shape() {
    // an L of three voxels: full cover, no overlap, every covered cell
    // palette-matches its brick
    let mut t: VoxelTree<PalettedVoxel> = VoxelTree::new();
    let cells = [c(0, 0, 0), c(0, 0, -1), c(0, -1, -1)];
    for cell in cells {
        t.set_leaf(cell, vox(RED, 7)).unwrap();
    }
    let bricks = simplify_lossless(&mut t, true, BrickType::Microbricks, 5, 200, 8);
    for cell in cells {
        assert_eq!(
            bricks.iter().filter(|b| covers(b, cell.x, cell.y, cell.z)).count(),
            1
        );
    }
    let volume: isize = bricks.iter().map(|b| b.width * b.height * b.depth).sum();
    assert_eq!(volume, cells.len() as isize);
    assert!(t.take_any_leaf().is_none());
}

#[test]
fn coarse_brick_families_scale_by_five_five_two() {
    let mut t: VoxelTree<PalettedVoxel> = VoxelTree::new();
    t.set_leaf(c(0, 0, 0), vox(RED, 0)).unwrap();
    let bricks = simplify_lossless(&mut t, true, BrickType::Default, 5, 200, 1);
    assert_eq!(bricks.len(), 1);
    let b = &bricks[0];
    assert_eq!(b.asset_name_index, 1);
    // save axis order is (x, z, y)
    assert_eq!((b.size_x, b.size_y, b.size_z), (5, 5, 2));
    assert_eq!((b.position_x, b.position_y, b.position_z), (5, 5, 2));
}

#[test]
fn scaled_size_multiplies_per_axis() {
    assert_eq!(scaled_size((1, 1, 1), (3, 4, 5)), (3, 4, 5));
    assert_eq!(scaled_size((5, 5, 2), (3, 4, 5)), (15, 20, 10));
}

#[test]
fn scaled_pos_names_the_outer_corner() {
    assert_eq!(scaled_pos((1, 1, 1), (1, 1, 1), (0, 0, 0)), (1, 1, 1));
    assert_eq!(scaled_pos((5, 5, 2), (2, 3, 1), (-4, 2, -1)), (-30, 35, -2));
}
