//! Greedy merging of voxels into bricks.
//!
//! The merger drains a voxel tree into an ordered list of axis-aligned boxes
//! ("bricks") that cover exactly the non-empty cells, without overlap. A box
//! grows from an anchor cell one axis at a time, z first, then y, then x —
//! the same order in which the tree hands out leaves — testing one full face
//! of already-fixed extent at each step, and stops at the first failure or at
//! the configured per-axis merge limit.

use vstd::prelude::*;

verus! {

use vstd::arithmetic::power2::*;
use crate::octree::{Coord, VoxelTree, MAX_SIZE, lemma_tree_map_in_bounds, lemma_tree_map_finite,
    lemma_wf_size, scan_le};
use crate::Rgba;

/// The family of bricks a conversion emits. The coarse families are placed
/// on a 5 x 5 x 2 grid of physical units per voxel, the micro family on a
/// 1 x 1 x 1 grid.
#[derive(Clone, Copy, PartialEq, Eq, Structural, Debug, Hash)]
pub enum BrickType {
    Microbricks,
    Default,
    Tiles,
}

/// A voxel sample prepared for exact-fidelity merging: the gamma-corrected
/// color together with the index of its nearest palette entry.
#[derive(Clone, Copy, PartialEq, Eq, Structural, Debug)]
pub struct PalettedVoxel {
    /// The gamma-corrected RGBA sample of this voxel.
    pub rgba: Rgba,
    /// Index of the palette entry nearest to `rgba`.
    pub palette_index: u32,
}

/// The color carried by an emitted brick: a palette index, or an explicit
/// RGBA value.
#[derive(Clone, Copy, PartialEq, Eq, Structural, Debug)]
pub enum BrickColor {
    Index(u32),
    Unique(Rgba),
}

/// An axis-aligned box of merged voxels, with its color and the scaled
/// fields the save format asks for.
///
/// `x`, `y`, `z` name the covered cell nearest `-infinity` (the anchor the
/// box grew from); `width`, `height` and `depth` are the extents along x, y
/// and z in voxel units. The `size_*` and `position_*` fields are the same
/// box expressed in physical units with the save format's axis order
/// (x, z, y).
#[derive(Clone, Copy, PartialEq, Eq, Structural, Debug)]
pub struct Brick {
    pub x: isize,
    pub y: isize,
    pub z: isize,
    pub width: isize,
    pub height: isize,
    pub depth: isize,
    pub color: BrickColor,
    pub asset_name_index: u32,
    pub owner_index: u32,
    pub material_intensity: u32,
    pub size_x: u32,
    pub size_y: u32,
    pub size_z: u32,
    pub position_x: i32,
    pub position_y: i32,
    pub position_z: i32,
}

/// Per-axis physical grid factors of a brick family.
pub open spec fn scales_spec(bricktype: BrickType) -> (isize, isize, isize) {
    if (bricktype matches BrickType::Microbricks) {
        (1 as isize, 1 as isize, 1 as isize)
    } else {
        (5 as isize, 5 as isize, 2 as isize)
    }
}

/// Per-axis physical grid factors of a brick family: 1 x 1 x 1 for
/// microbricks, 5 x 5 x 2 for the studded families.
pub fn brick_scales(bricktype: BrickType) -> (r: (isize, isize, isize))
    ensures
        r == scales_spec(bricktype),
{
    if bricktype == BrickType::Microbricks {
        (1, 1, 1)
    } else {
        (5, 5, 2)
    }
}

/// A box extent scaled to physical units, per axis.
pub fn scaled_size(scale: (isize, isize, isize), size: (isize, isize, isize)) -> (r: (
    u32,
    u32,
    u32,
))
    requires
        1 <= scale.0 <= 5 && 1 <= scale.1 <= 5 && 1 <= scale.2 <= 5,
        0 <= size.0 <= pow2(MAX_SIZE as nat),
        0 <= size.1 <= pow2(MAX_SIZE as nat),
        0 <= size.2 <= pow2(MAX_SIZE as nat),
    ensures
        r.0 == scale.0 * size.0,
        r.1 == scale.1 * size.1,
        r.2 == scale.2 * size.2,
{
    proof {
        lemma2_to64();
        assert(0 <= scale.0 * size.0 <= 671088640) by (nonlinear_arith)
            requires
                1 <= scale.0 <= 5,
                0 <= size.0 <= 134217728,
        ;
        assert(0 <= scale.1 * size.1 <= 671088640) by (nonlinear_arith)
            requires
                1 <= scale.1 <= 5,
                0 <= size.1 <= 134217728,
        ;
        assert(0 <= scale.2 * size.2 <= 671088640) by (nonlinear_arith)
            requires
                1 <= scale.2 <= 5,
                0 <= size.2 <= 134217728,
        ;
    }
    ((scale.0 * size.0) as u32, (scale.1 * size.1) as u32, (scale.2 * size.2) as u32)
}

/// A box corner scaled to physical units, per axis: the scaled extent plus
/// twice the scaled cell coordinate, so that the result names the box's
/// outer corner on the doubled grid the save format uses.
pub fn scaled_pos(
    scale: (isize, isize, isize),
    size: (isize, isize, isize),
    pos: (isize, isize, isize),
) -> (r: (i32, i32, i32))
    requires
        1 <= scale.0 <= 5 && 1 <= scale.1 <= 5 && 1 <= scale.2 <= 5,
        0 <= size.0 <= pow2(MAX_SIZE as nat),
        0 <= size.1 <= pow2(MAX_SIZE as nat),
        0 <= size.2 <= pow2(MAX_SIZE as nat),
        -(pow2(MAX_SIZE as nat) as int) <= pos.0 <= pow2(MAX_SIZE as nat),
        -(pow2(MAX_SIZE as nat) as int) <= pos.1 <= pow2(MAX_SIZE as nat),
        -(pow2(MAX_SIZE as nat) as int) <= pos.2 <= pow2(MAX_SIZE as nat),
    ensures
        r.0 == scale.0 * size.0 + 2 * scale.0 * pos.0,
        r.1 == scale.1 * size.1 + 2 * scale.1 * pos.1,
        r.2 == scale.2 * size.2 + 2 * scale.2 * pos.2,
{
    proof {
        lemma2_to64();
        assert(0 <= scale.0 * size.0 <= 671088640 && -1342177280 <= 2 * scale.0 * pos.0
            <= 1342177280) by (nonlinear_arith)
            requires
                1 <= scale.0 <= 5,
                0 <= size.0 <= 134217728,
                -134217728 <= pos.0 <= 134217728,
        ;
        assert(0 <= scale.1 * size.1 <= 671088640 && -1342177280 <= 2 * scale.1 * pos.1
            <= 1342177280) by (nonlinear_arith)
            requires
                1 <= scale.1 <= 5,
                0 <= size.1 <= 134217728,
                -134217728 <= pos.1 <= 134217728,
        ;
        assert(0 <= scale.2 * size.2 <= 671088640 && -1342177280 <= 2 * scale.2 * pos.2
            <= 1342177280) by (nonlinear_arith)
            requires
                1 <= scale.2 <= 5,
                0 <= size.2 <= 134217728,
                -134217728 <= pos.2 <= 134217728,
        ;
    }
    (
        (scale.0 * size.0 + 2 * scale.0 * pos.0) as i32,
        (scale.1 * size.1 + 2 * scale.1 * pos.1) as i32,
        (scale.2 * size.2 + 2 * scale.2 * pos.2) as i32,
    )
}

/// True iff `k` lies in the axis-aligned box `[x, xp) x [y, yp) x [z, zp)`.
pub open spec fn box_covers(
    x: int,
    y: int,
    z: int,
    xp: int,
    yp: int,
    zp: int,
    k: (int, int, int),
) -> bool {
    &&& x <= k.0 < xp
    &&& y <= k.1 < yp
    &&& z <= k.2 < zp
}

/// True iff `k` is one of the cells the brick covers.
pub open spec fn brick_covers(b: Brick, k: (int, int, int)) -> bool {
    box_covers(
        b.x as int,
        b.y as int,
        b.z as int,
        b.x + b.width,
        b.y + b.height,
        b.z + b.depth,
        k,
    )
}

/// The cell the brick grew from: its covered corner nearest `-infinity`.
pub open spec fn brick_corner(b: Brick) -> (int, int, int) {
    (b.x as int, b.y as int, b.z as int)
}

/// The brick's extents are at least one cell and at most the merge limit on
/// every axis.
pub open spec fn brick_geometry_ok(b: Brick, max_merge: int) -> bool {
    &&& 1 <= b.width <= max_merge
    &&& 1 <= b.height <= max_merge
    &&& 1 <= b.depth <= max_merge
}

/// The scaled save-format fields follow from the box: per-axis scaled
/// extents, and outer-corner positions on the doubled grid, with the save
/// format's axis order (x, z, y).
pub open spec fn brick_save_fields_ok(b: Brick, bricktype: BrickType, material_intensity: u32) -> bool {
    let scale = scales_spec(bricktype);
    &&& b.size_x == scale.0 * b.width
    &&& b.size_y == scale.1 * b.depth
    &&& b.size_z == scale.2 * b.height
    &&& b.position_x == scale.0 * b.width + 2 * scale.0 * b.x
    &&& b.position_y == scale.1 * b.depth + 2 * scale.1 * b.z
    &&& b.position_z == scale.2 * b.height + 2 * scale.2 * b.y
    &&& b.asset_name_index == (if (bricktype matches BrickType::Microbricks) {
        0int
    } else {
        1int
    })
    &&& b.owner_index == 1
    &&& b.material_intensity == material_intensity
}

/// The brick's color is its anchor voxel's palette index when snapping to
/// the palette, and the anchor's own RGBA otherwise.
pub open spec fn brick_color_ok(
    b: Brick,
    m: Map<(int, int, int), PalettedVoxel>,
    match_colorset: bool,
) -> bool {
    &&& m.dom().contains(brick_corner(b))
    &&& b.color == (if match_colorset {
        BrickColor::Index(m[brick_corner(b)].palette_index)
    } else {
        BrickColor::Unique(m[brick_corner(b)].rgba)
    })
}

/// Every cell the brick covers held a voxel, and each of those voxels
/// palette-matches to the brick's anchor voxel.
pub open spec fn brick_uniform(b: Brick, m: Map<(int, int, int), PalettedVoxel>) -> bool {
    forall|k: (int, int, int)|
        #[trigger] brick_covers(b, k) ==> m.dom().contains(k) && m[k].palette_index
            == m[brick_corner(b)].palette_index
}

/// Everything the merger promises of one emitted brick, against the map of
/// voxels that were present when merging began.
pub open spec fn brick_ok(
    b: Brick,
    m: Map<(int, int, int), PalettedVoxel>,
    match_colorset: bool,
    bricktype: BrickType,
    material_intensity: u32,
    max_merge: int,
) -> bool {
    &&& brick_geometry_ok(b, max_merge)
    &&& brick_save_fields_ok(b, bricktype, material_intensity)
    &&& brick_color_ok(b, m, match_colorset)
    &&& brick_uniform(b, m)
}

/// The cell `(u, v, w)` of `m` holds a voxel whose palette index is `cls`.
pub open spec fn cell_classed(
    m: Map<(int, int, int), PalettedVoxel>,
    cls: u32,
    u: int,
    v: int,
    w: int,
) -> bool {
    &&& m.dom().contains((u, v, w))
    &&& m[(u, v, w)].palette_index == cls
}

/// Numeric range of any coordinate a well-formed tree can hold.
proof fn lemma_in_bounds_numeric<T>(t: VoxelTree<T>, k: (int, int, int))
    requires
        t.wf(),
        t.in_bounds(k),
    ensures
        -67108864 <= k.0 < 67108864,
        -67108864 <= k.1 < 67108864,
        -67108864 <= k.2 < 67108864,
{
    lemma2_to64();
    lemma_wf_size(t);
    lemma_pow2_unfold(t.size_spec() as nat);
    if ((t.size_spec() - 1) as nat) < 26 {
        lemma_pow2_strictly_increases((t.size_spec() - 1) as nat, 26);
    }
}

/// Drains the tree into bricks under the exact-fidelity rule: cells merge
/// only when their voxels palette-match the anchor's, so every covered cell
/// independently resolves to the emitted brick's color class.
///
/// The emitted boxes are pairwise disjoint and their union is exactly the
/// set of cells that held a voxel, and the tree is left empty.
#[verifier::loop_isolation(false)]
#[verifier::rlimit(100)]
pub fn simplify_lossless(
    tree: &mut VoxelTree<PalettedVoxel>,
    match_colorset: bool,
    bricktype: BrickType,
    material_intensity: u32,
    max_merge: isize,
    palette_len: u32,
) -> (bricks: Vec<Brick>)
    requires
        old(tree).wf(),
        1 <= max_merge <= 0x4000_0000,
        forall|k: (int, int, int)| old(tree).as_map().dom().contains(k) ==> (#[trigger] old(
            tree,
        ).as_map()[k]).palette_index < palette_len,
    ensures
        final(tree).wf(),
        final(tree).size_spec() == old(tree).size_spec(),
        final(tree).as_map() == Map::<(int, int, int), PalettedVoxel>::empty(),
        forall|i: int|
            0 <= i < bricks@.len() ==> brick_ok(
                #[trigger] bricks@[i],
                old(tree).as_map(),
                match_colorset,
                bricktype,
                material_intensity,
                max_merge as int,
            ),
        forall|k: (int, int, int)| #[trigger]
            old(tree).as_map().dom().contains(k) ==> exists|i: int|
                0 <= i < bricks@.len() && #[trigger] brick_covers(bricks@[i], k),
        forall|i: int, k: (int, int, int)|
            0 <= i < bricks@.len() && #[trigger] brick_covers(bricks@[i], k) ==> old(
                tree,
            ).as_map().dom().contains(k),
        forall|i: int, j: int, k: (int, int, int)|
            0 <= i < j < bricks@.len() && #[trigger] brick_covers(bricks@[i], k) ==> !brick_covers(
                #[trigger] bricks@[j],
                k,
            ),
{
    let ghost m_all = old(tree).as_map();
    proof {
        lemma_tree_map_finite(*old(tree));
        lemma2_to64();
    }
    let scale = brick_scales(bricktype);
    let asset: u32 = if bricktype == BrickType::Microbricks {
        0
    } else {
        1
    };
    let mut bricks: Vec<Brick> = Vec::new();
    loop
        invariant
            tree.wf(),
            tree.size_spec() == old(tree).size_spec(),
            tree.as_map().dom().finite(),
            forall|k: (int, int, int)| #[trigger]
                tree.as_map().dom().contains(k) ==> m_all.dom().contains(k) && tree.as_map()[k]
                    == m_all[k],
            forall|k: (int, int, int)| #[trigger]
                m_all.dom().contains(k) && !tree.as_map().dom().contains(k) ==> exists|i: int|
                    0 <= i < bricks@.len() && #[trigger] brick_covers(bricks@[i], k),
            forall|i: int, k: (int, int, int)|
                0 <= i < bricks@.len() && #[trigger] brick_covers(bricks@[i], k) ==> m_all
                    .dom().contains(k) && !tree.as_map().dom().contains(k),
            forall|i: int|
                0 <= i < bricks@.len() ==> brick_ok(
                    #[trigger] bricks@[i],
                    m_all,
                    match_colorset,
                    bricktype,
                    material_intensity,
                    max_merge as int,
                ),
            forall|i: int, j: int, k: (int, int, int)|
                0 <= i < j < bricks@.len() && #[trigger] brick_covers(bricks@[i], k) ==> !(
                #[trigger] brick_covers(bricks@[j], k)),
            forall|i: int, j: int|
                0 <= i < j < bricks@.len() ==> scan_le(
                    brick_corner(#[trigger] bricks@[i]),
                    brick_corner(#[trigger] bricks@[j]),
                    old(tree).origin_spec(),
                    old(tree).size_spec() as nat,
                ),
            forall|i: int, k: (int, int, int)|
                0 <= i < bricks@.len() && #[trigger] tree.as_map().dom().contains(k)
                    ==> scan_le(
                    brick_corner(#[trigger] bricks@[i]),
                    k,
                    old(tree).origin_spec(),
                    old(tree).size_spec() as nat,
                ),
        decreases tree.as_map().dom().len(),
    {
        let ghost t_pre = *tree;
        let ghost m_iter = tree.as_map();
        let taken = tree.take_any_leaf();
        match taken {
            None => {
                return bricks;
            },
            Some((c0, v0)) => {
                let x = c0.x;
                let y = c0.y;
                let z = c0.z;
                let cls = v0.palette_index;
                let ghost k0 = c0@;
                let ghost m1 = tree.as_map();
                proof {
                    lemma_tree_map_in_bounds(t_pre);
                    lemma_in_bounds_numeric(t_pre, k0);
                }
                // extend along z first, then y, then x: the same order the
                // scan hands leaves out, so no negative direction need be
                // probed
                let mut zp: isize = z + 1;
                let mut grow_z = true;
                while grow_z && zp - z < max_merge
                    invariant
                        m1 == tree.as_map(),
                        z < zp <= z + max_merge,
                        forall|w: int|
                            z < w < zp ==> #[trigger] cell_classed(m1, cls, x as int, y as int, w),
                    decreases z + max_merge - zp, (if grow_z { 1int } else { 0int }),
                {
                    match tree.get_leaf(Coord { x, y, z: zp }) {
                        Some(v) => {
                            if v.palette_index == cls {
                                zp = zp + 1;
                            } else {
                                grow_z = false;
                            }
                        },
                        None => {
                            grow_z = false;
                        },
                    }
                }
                let mut yp: isize = y + 1;
                let mut grow_y = true;
                while grow_y && yp - y < max_merge
                    invariant
                        m1 == tree.as_map(),
                        y < yp <= y + max_merge,
                        forall|v: int, w: int|
                            y < v < yp && z <= w < zp ==> #[trigger] cell_classed(
                                m1,
                                cls,
                                x as int,
                                v,
                                w,
                            ),
                    decreases y + max_merge - yp, (if grow_y { 1int } else { 0int }),
                {
                    let mut pass = true;
                    let mut sz: isize = z;
                    while pass && sz < zp
                        invariant
                            m1 == tree.as_map(),
                            z <= sz <= zp,
                            pass ==> forall|w: int|
                                z <= w < sz ==> #[trigger] cell_classed(
                                    m1,
                                    cls,
                                    x as int,
                                    yp as int,
                                    w,
                                ),
                        decreases zp - sz, (if pass { 1int } else { 0int }),
                    {
                        match tree.get_leaf(Coord { x, y: yp, z: sz }) {
                            Some(v) => {
                                if v.palette_index == cls {
                                    sz = sz + 1;
                                } else {
                                    pass = false;
                                }
                            },
                            None => {
                                pass = false;
                            },
                        }
                    }
                    if !pass {
                        grow_y = false;
                        continue ;
                    }
                    proof {
                        assert forall|v: int, w: int|
                            y < v < yp + 1 && z <= w < zp implies #[trigger] cell_classed(
                            m1,
                            cls,
                            x as int,
                            v,
                            w,
                        ) by {
                            if v == yp as int {
                                assert(cell_classed(m1, cls, x as int, yp as int, w));
                            }
                        };
                    }
                    yp = yp + 1;
                }
                let mut xp: isize = x + 1;
                let mut grow_x = true;
                while grow_x && xp - x < max_merge
                    invariant
                        m1 == tree.as_map(),
                        x < xp <= x + max_merge,
                        forall|u: int, v: int, w: int|
                            x < u < xp && y <= v < yp && z <= w < zp ==> #[trigger] cell_classed(
                                m1,
                                cls,
                                u,
                                v,
                                w,
                            ),
                    decreases x + max_merge - xp, (if grow_x { 1int } else { 0int }),
                {
                    let mut pass = true;
                    let mut sy: isize = y;
                    while pass && sy < yp
                        invariant
                            m1 == tree.as_map(),
                            y <= sy <= yp,
                            pass ==> forall|v: int, w: int|
                                y <= v < sy && z <= w < zp ==> #[trigger] cell_classed(
                                    m1,
                                    cls,
                                    xp as int,
                                    v,
                                    w,
                                ),
                        decreases yp - sy, (if pass { 1int } else { 0int }),
                    {
                        let mut pass2 = true;
                        let mut sz: isize = z;
                        while pass2 && sz < zp
                            invariant
                                m1 == tree.as_map(),
                                z <= sz <= zp,
                                        pass2 ==> forall|w: int|
                                    z <= w < sz ==> #[trigger] cell_classed(
                                        m1,
                                        cls,
                                        xp as int,
                                        sy as int,
                                        w,
                                    ),
                            decreases zp - sz, (if pass2 { 1int } else { 0int }),
                        {
                            match tree.get_leaf(Coord { x: xp, y: sy, z: sz }) {
                                Some(v) => {
                                    if v.palette_index == cls {
                                        sz = sz + 1;
                                    } else {
                                        pass2 = false;
                                    }
                                },
                                None => {
                                    pass2 = false;
                                },
                            }
                        }
                        if !pass2 {
                            pass = false;
                            continue ;
                        }
                        proof {
                            assert forall|v: int, w: int|
                                y <= v < sy + 1 && z <= w < zp implies #[trigger] cell_classed(
                                m1,
                                cls,
                                xp as int,
                                v,
                                w,
                            ) by {
                                if v == sy as int {
                                    assert(cell_classed(m1, cls, xp as int, sy as int, w));
                                }
                            };
                        }
                        sy = sy + 1;
                    }
                    if !pass {
                        grow_x = false;
                        continue ;
                    }
                    proof {
                        assert forall|u: int, v: int, w: int|
                            x < u < xp + 1 && y <= v < yp && z <= w < zp implies #[trigger] cell_classed(
                            m1,
                            cls,
                            u,
                            v,
                            w,
                        ) by {
                            if u == xp as int {
                                assert(cell_classed(m1, cls, xp as int, v, w));
                            }
                        };
                    }
                    xp = xp + 1;
                }
                proof {
                    // the whole box, less the anchor, is present and
                    // palette-matched in the tree as it stood after the take
                    assert forall|k: (int, int, int)|
                        #![trigger m1.dom().contains(k)]
                        box_covers(x as int, y as int, z as int, xp as int, yp as int, zp as int, k)
                            && k != k0 implies m1.dom().contains(k) && m1[k].palette_index
                        == cls by {
                        assert(k == (k.0, k.1, k.2));
                        if k.0 == x as int {
                            if k.1 == y as int {
                                assert(cell_classed(m1, cls, x as int, y as int, k.2));
                            } else {
                                assert(cell_classed(m1, cls, x as int, k.1, k.2));
                            }
                        } else {
                            assert(cell_classed(m1, cls, k.0, k.1, k.2));
                        }
                        assert(m1.dom().contains((k.0, k.1, k.2)) && m1[
                            (k.0, k.1, k.2)
                        ].palette_index == cls);
                    };
                    // coordinate ranges of the box ends
                    if zp > z + 1 {
                        assert(m1.dom().contains((x as int, y as int, zp - 1)));
                        lemma_tree_map_in_bounds(t_pre);
                        lemma_in_bounds_numeric(t_pre, (x as int, y as int, zp - 1));
                    }
                    if yp > y + 1 {
                        assert(m1.dom().contains((x as int, yp - 1, z as int)));
                        lemma_tree_map_in_bounds(t_pre);
                        lemma_in_bounds_numeric(t_pre, (x as int, yp - 1, z as int));
                    }
                    if xp > x + 1 {
                        assert(m1.dom().contains((xp - 1, y as int, z as int)));
                        lemma_tree_map_in_bounds(t_pre);
                        lemma_in_bounds_numeric(t_pre, (xp - 1, y as int, z as int));
                    }
                }
                // clear every covered cell
                let ghost m_box = m1;
                let mut sx: isize = x;
                while sx < xp
                    invariant
                        x <= sx <= xp,
                        tree.wf(),
                        tree.size_spec() == old(tree).size_spec(),
                        forall|k: (int, int, int)| #[trigger]
                            tree.as_map().dom().contains(k) == (m1.dom().contains(k) && !(
                            box_covers(
                                x as int,
                                y as int,
                                z as int,
                                xp as int,
                                yp as int,
                                zp as int,
                                k,
                            ) && k.0 < sx)),
                        forall|k: (int, int, int)| #[trigger]
                            tree.as_map().dom().contains(k) ==> tree.as_map()[k] == m1[k],
                    decreases xp - sx,
                {
                    let mut sy: isize = y;
                    while sy < yp
                        invariant
                            y <= sy <= yp,
                            x <= sx < xp,
                            tree.wf(),
                            tree.size_spec() == old(tree).size_spec(),
                            forall|k: (int, int, int)| #[trigger]
                                tree.as_map().dom().contains(k) == (m1.dom().contains(k) && !(
                                box_covers(
                                    x as int,
                                    y as int,
                                    z as int,
                                    xp as int,
                                    yp as int,
                                    zp as int,
                                    k,
                                ) && (k.0 < sx || (k.0 == sx && k.1 < sy)))),
                            forall|k: (int, int, int)| #[trigger]
                                tree.as_map().dom().contains(k) ==> tree.as_map()[k] == m1[k],
                        decreases yp - sy,
                    {
                        let mut sz: isize = z;
                        while sz < zp
                            invariant
                                z <= sz <= zp,
                                y <= sy < yp,
                                x <= sx < xp,
                                tree.wf(),
                                tree.size_spec() == old(tree).size_spec(),
                                forall|k: (int, int, int)| #[trigger]
                                    tree.as_map().dom().contains(k) == (m1.dom().contains(k) && !(
                                    box_covers(
                                        x as int,
                                        y as int,
                                        z as int,
                                        xp as int,
                                        yp as int,
                                        zp as int,
                                        k,
                                    ) && (k.0 < sx || (k.0 == sx && k.1 < sy) || (k.0 == sx && k.1
                                        == sy && k.2 < sz)))),
                                forall|k: (int, int, int)| #[trigger]
                                    tree.as_map().dom().contains(k) ==> tree.as_map()[k] == m1[k],
                            decreases zp - sz,
                        {
                            tree.clear_leaf(Coord { x: sx, y: sy, z: sz });
                            sz = sz + 1;
                        }
                        sy = sy + 1;
                    }
                    sx = sx + 1;
                }
                // emit the brick for the cleared box
                let width = xp - x;
                let height = yp - y;
                let depth = zp - z;
                let bsize = scaled_size(scale, (width, depth, height));
                let bpos = scaled_pos(scale, (width, depth, height), (x, z, y));
                let color = if match_colorset {
                    BrickColor::Index(cls)
                } else {
                    BrickColor::Unique(v0.rgba)
                };
                let b = Brick {
                    x,
                    y,
                    z,
                    width,
                    height,
                    depth,
                    color,
                    asset_name_index: asset,
                    owner_index: 1,
                    material_intensity,
                    size_x: bsize.0,
                    size_y: bsize.1,
                    size_z: bsize.2,
                    position_x: bpos.0,
                    position_y: bpos.1,
                    position_z: bpos.2,
                };
                let ghost bricks_pre = bricks@;
                bricks.push(b);
                proof {
                    lemma_tree_map_finite(*tree);
                    assert(brick_corner(b) == k0);
                    assert(m_all.dom().contains(k0) && m_all[k0] == v0);
                    assert(brick_uniform(b, m_all)) by {
                        assert forall|k: (int, int, int)| #[trigger]
                            brick_covers(b, k) implies m_all.dom().contains(k)
                            && m_all[k].palette_index == m_all[brick_corner(b)].palette_index by {
                            if k != k0 {
                                assert(box_covers(
                                    x as int,
                                    y as int,
                                    z as int,
                                    xp as int,
                                    yp as int,
                                    zp as int,
                                    k,
                                ));
                                assert(m1.dom().contains(k));
                                assert(m1[k].palette_index == cls);
                                assert(m_iter.dom().contains(k));
                            }
                        };
                    }
                    // the new tree map lost exactly the box
                    assert forall|k: (int, int, int)| #[trigger]
                        tree.as_map().dom().contains(k) == (m_iter.dom().contains(k)
                        && !brick_covers(b, k)) by {
                        if !brick_covers(b, k) && k != k0 {
                            assert(m1.dom().contains(k) == m_iter.dom().contains(k));
                        }
                    };
                    // the outer-loop measure shrinks: the new map is a subset
                    // of the old one missing the anchor
                    assert(tree.as_map().dom().subset_of(m_iter.dom().remove(k0)));
                    vstd::set_lib::lemma_len_subset(
                        tree.as_map().dom(),
                        m_iter.dom().remove(k0),
                    );
                    // coverage bookkeeping for the outer loop
                    assert forall|k: (int, int, int)| #[trigger]
                        m_all.dom().contains(k) && !tree.as_map().dom().contains(k) implies exists|
                        i: int,
                    |
                        0 <= i < bricks@.len() && #[trigger] brick_covers(bricks@[i], k) by {
                        if brick_covers(b, k) {
                            assert(brick_covers(bricks@[bricks@.len() - 1], k));
                        } else {
                            assert(!m_iter.dom().contains(k));
                            assert(exists|i: int|
                                0 <= i < bricks_pre.len() && #[trigger] brick_covers(
                                    bricks_pre[i],
                                    k,
                                ));
                            let i0 = choose|i: int|
                                0 <= i < bricks_pre.len() && #[trigger] brick_covers(
                                    bricks_pre[i],
                                    k,
                                );
                            assert(brick_covers(bricks@[i0], k));
                        }
                    };
                    // the new brick overlaps no earlier one: earlier bricks
                    // cover only cells already gone from the tree, while the
                    // new box was still present
                    assert forall|i: int, k: (int, int, int)|
                        0 <= i < bricks@.len() - 1 && #[trigger] brick_covers(
                            bricks@[i],
                            k,
                        ) implies !(#[trigger] brick_covers(bricks@[bricks@.len() - 1], k)) by {
                        if brick_covers(b, k) {
                            if k != k0 {
                                assert(m1.dom().contains(k));
                            }
                            assert(m_iter.dom().contains(k));
                            assert(brick_covers(bricks_pre[i], k));
                        }
                    };
                    // emission stays in scan order: earlier anchors preceded
                    // everything that was still in the tree, the new anchor
                    // included, and the new anchor precedes what remains
                    let ghost oo = old(tree).origin_spec();
                    let ghost ssz = old(tree).size_spec() as nat;
                    assert(brick_corner(bricks@[bricks@.len() - 1]) == k0);
                    assert forall|i: int, j: int|
                        0 <= i < j < bricks@.len() implies scan_le(
                        brick_corner(#[trigger] bricks@[i]),
                        brick_corner(#[trigger] bricks@[j]),
                        oo,
                        ssz,
                    ) by {
                        if j == bricks@.len() - 1 {
                            assert(m_iter.dom().contains(k0));
                            assert(brick_corner(bricks_pre[i]) == brick_corner(bricks@[i]));
                        } else {
                            assert(brick_corner(bricks_pre[i]) == brick_corner(bricks@[i]));
                            assert(brick_corner(bricks_pre[j]) == brick_corner(bricks@[j]));
                        }
                    };
                    assert forall|i: int, k: (int, int, int)|
                        0 <= i < bricks@.len() && #[trigger] tree.as_map().dom().contains(
                            k,
                        ) implies scan_le(brick_corner(#[trigger] bricks@[i]), k, oo, ssz) by {
                        assert(m_iter.dom().contains(k));
                        if i < bricks@.len() - 1 {
                            assert(brick_corner(bricks_pre[i]) == brick_corner(bricks@[i]));
                        }
                    };
                }
            },
        }
    }
}

/// An axis-aligned box of merged voxels for the approximate mode, carrying
/// the color samples gathered while the box grew instead of a final color.
/// The samples are handed on, in probe order, to the averaging step; the
/// list also keeps the samples of face probes that failed partway, exactly
/// as the averaging behavior expects.
#[derive(Clone, Debug)]
pub struct SampledBrick {
    pub x: isize,
    pub y: isize,
    pub z: isize,
    pub width: isize,
    pub height: isize,
    pub depth: isize,
    pub asset_name_index: u32,
    pub owner_index: u32,
    pub material_intensity: u32,
    pub size_x: u32,
    pub size_y: u32,
    pub size_z: u32,
    pub position_x: i32,
    pub position_y: i32,
    pub position_z: i32,
    pub samples: Vec<Rgba>,
}

/// True iff `k` is one of the cells the sampled brick covers.
pub open spec fn sampled_covers(b: SampledBrick, k: (int, int, int)) -> bool {
    box_covers(
        b.x as int,
        b.y as int,
        b.z as int,
        b.x + b.width,
        b.y + b.height,
        b.z + b.depth,
        k,
    )
}

/// The cell the sampled brick grew from.
pub open spec fn sampled_corner(b: SampledBrick) -> (int, int, int) {
    (b.x as int, b.y as int, b.z as int)
}

/// `c` occurs in the sample list `s`.
pub open spec fn samples_contain(s: Seq<Rgba>, c: Rgba) -> bool {
    exists|j: int| 0 <= j < s.len() && s[j] == c
}

/// `c` is the color of some voxel of `m`.
pub open spec fn sample_from(m: Map<(int, int, int), Rgba>, c: Rgba) -> bool {
    exists|k: (int, int, int)| #[trigger] m.dom().contains(k) && m[k] == c
}

/// Every sample in `s` is the color of some voxel of `m`.
pub open spec fn samples_from(m: Map<(int, int, int), Rgba>, s: Seq<Rgba>) -> bool {
    forall|j: int| 0 <= j < s.len() ==> sample_from(m, #[trigger] s[j])
}

/// Every cell of the box holds a voxel of `m` whose color occurs in `s`.
pub open spec fn box_sampled(
    m: Map<(int, int, int), Rgba>,
    s: Seq<Rgba>,
    x: int,
    y: int,
    z: int,
    xp: int,
    yp: int,
    zp: int,
) -> bool {
    forall|k: (int, int, int)|
        #[trigger] box_covers(x, y, z, xp, yp, zp, k) ==> m.dom().contains(k) && samples_contain(
            s,
            m[k],
        )
}

/// Appending a sample disturbs no fact about the samples already gathered.
proof fn lemma_sampled_push(
    m: Map<(int, int, int), Rgba>,
    s: Seq<Rgba>,
    d: Rgba,
    x: int,
    y: int,
    z: int,
    xp: int,
    yp: int,
    zp: int,
)
    requires
        box_sampled(m, s, x, y, z, xp, yp, zp),
    ensures
        box_sampled(m, s.push(d), x, y, z, xp, yp, zp),
{
    assert forall|k: (int, int, int)|
        #[trigger] box_covers(x, y, z, xp, yp, zp, k) implies m.dom().contains(k)
        && samples_contain(s.push(d), m[k]) by {
        let j = choose|j: int| 0 <= j < s.len() && s[j] == m[k];
        assert(s.push(d)[j] == m[k]);
    };
}

/// Everything the approximate merger promises of one emitted brick, against
/// the map of voxels that were present when merging began.
pub open spec fn sampled_brick_ok(
    b: SampledBrick,
    m: Map<(int, int, int), Rgba>,
    bricktype: BrickType,
    material_intensity: u32,
    max_merge: int,
) -> bool {
    let scale = scales_spec(bricktype);
    &&& 1 <= b.width <= max_merge
    &&& 1 <= b.height <= max_merge
    &&& 1 <= b.depth <= max_merge
    &&& b.size_x == scale.0 * b.width
    &&& b.size_y == scale.1 * b.depth
    &&& b.size_z == scale.2 * b.height
    &&& b.position_x == scale.0 * b.width + 2 * scale.0 * b.x
    &&& b.position_y == scale.1 * b.depth + 2 * scale.1 * b.z
    &&& b.position_z == scale.2 * b.height + 2 * scale.2 * b.y
    &&& b.asset_name_index == (if (bricktype matches BrickType::Microbricks) {
        0int
    } else {
        1int
    })
    &&& b.owner_index == 1
    &&& b.material_intensity == material_intensity
    &&& m.dom().contains(sampled_corner(b))
    &&& b.samples@.len() >= 1
    &&& b.samples@[0] == m[sampled_corner(b)]
    &&& samples_from(m, b.samples@)
    &&& forall|k: (int, int, int)|
        #[trigger] sampled_covers(b, k) ==> m.dom().contains(k) && samples_contain(
            b.samples@,
            m[k],
        )
}

/// Drains the tree into bricks under the approximate rule: mere adjacency
/// merges, regardless of color. Each brick carries every color sample the
/// growth probes saw, in probe order, for the averaging step downstream.
///
/// The emitted boxes are pairwise disjoint and their union is exactly the
/// set of cells that held a voxel, and the tree is left empty.
#[verifier::loop_isolation(false)]
#[verifier::rlimit(100)]
pub fn simplify_lossy(
    tree: &mut VoxelTree<Rgba>,
    bricktype: BrickType,
    material_intensity: u32,
    max_merge: isize,
) -> (bricks: Vec<SampledBrick>)
    requires
        old(tree).wf(),
        1 <= max_merge <= 0x4000_0000,
    ensures
        final(tree).wf(),
        final(tree).size_spec() == old(tree).size_spec(),
        final(tree).as_map() == Map::<(int, int, int), Rgba>::empty(),
        forall|i: int|
            0 <= i < bricks@.len() ==> sampled_brick_ok(
                #[trigger] bricks@[i],
                old(tree).as_map(),
                bricktype,
                material_intensity,
                max_merge as int,
            ),
        forall|k: (int, int, int)| #[trigger]
            old(tree).as_map().dom().contains(k) ==> exists|i: int|
                0 <= i < bricks@.len() && #[trigger] sampled_covers(bricks@[i], k),
        forall|i: int, k: (int, int, int)|
            0 <= i < bricks@.len() && #[trigger] sampled_covers(bricks@[i], k) ==> old(
                tree,
            ).as_map().dom().contains(k),
        forall|i: int, j: int, k: (int, int, int)|
            0 <= i < j < bricks@.len() && #[trigger] sampled_covers(bricks@[i], k) ==> !(
            #[trigger] sampled_covers(bricks@[j], k)),
        forall|i: int, j: int|
            0 <= i < j < bricks@.len() ==> scan_le(
                sampled_corner(#[trigger] bricks@[i]),
                sampled_corner(#[trigger] bricks@[j]),
                old(tree).origin_spec(),
                old(tree).size_spec() as nat,
            ),
{
    let ghost m_all = old(tree).as_map();
    proof {
        lemma_tree_map_finite(*old(tree));
        lemma2_to64();
    }
    let scale = brick_scales(bricktype);
    let asset: u32 = if bricktype == BrickType::Microbricks {
        0
    } else {
        1
    };
    let mut bricks: Vec<SampledBrick> = Vec::new();
    loop
        invariant
            tree.wf(),
            tree.size_spec() == old(tree).size_spec(),
            tree.as_map().dom().finite(),
            forall|k: (int, int, int)| #[trigger]
                tree.as_map().dom().contains(k) ==> m_all.dom().contains(k) && tree.as_map()[k]
                    == m_all[k],
            forall|k: (int, int, int)| #[trigger]
                m_all.dom().contains(k) && !tree.as_map().dom().contains(k) ==> exists|i: int|
                    0 <= i < bricks@.len() && #[trigger] sampled_covers(bricks@[i], k),
            forall|i: int, k: (int, int, int)|
                0 <= i < bricks@.len() && #[trigger] sampled_covers(bricks@[i], k) ==> m_all
                    .dom().contains(k) && !tree.as_map().dom().contains(k),
            forall|i: int|
                0 <= i < bricks@.len() ==> sampled_brick_ok(
                    #[trigger] bricks@[i],
                    m_all,
                    bricktype,
                    material_intensity,
                    max_merge as int,
                ),
            forall|i: int, j: int, k: (int, int, int)|
                0 <= i < j < bricks@.len() && #[trigger] sampled_covers(bricks@[i], k) ==> !(
                #[trigger] sampled_covers(bricks@[j], k)),
            forall|i: int, j: int|
                0 <= i < j < bricks@.len() ==> scan_le(
                    sampled_corner(#[trigger] bricks@[i]),
                    sampled_corner(#[trigger] bricks@[j]),
                    old(tree).origin_spec(),
                    old(tree).size_spec() as nat,
                ),
            forall|i: int, k: (int, int, int)|
                0 <= i < bricks@.len() && #[trigger] tree.as_map().dom().contains(k)
                    ==> scan_le(
                    sampled_corner(#[trigger] bricks@[i]),
                    k,
                    old(tree).origin_spec(),
                    old(tree).size_spec() as nat,
                ),
        decreases tree.as_map().dom().len(),
    {
        let ghost t_pre = *tree;
        let ghost m_iter = tree.as_map();
        let taken = tree.take_any_leaf();
        match taken {
            None => {
                return bricks;
            },
            Some((c0, v0)) => {
                let x = c0.x;
                let y = c0.y;
                let z = c0.z;
                let ghost k0 = c0@;
                let ghost m1 = tree.as_map();
                proof {
                    lemma_tree_map_in_bounds(t_pre);
                    lemma_in_bounds_numeric(t_pre, k0);
                }
                let mut samples: Vec<Rgba> = Vec::new();
                samples.push(v0);
                proof {
                    assert(samples@[0] == m_iter[k0]);
                    assert(m_iter.dom().contains(k0) && m_iter[k0] == samples@[0]);
                    assert(samples_from(m_iter, samples@));
                    assert(box_sampled(
                        m_iter,
                        samples@,
                        x as int,
                        y as int,
                        z as int,
                        x + 1,
                        y + 1,
                        z + 1,
                    ));
                }
                let mut zp: isize = z + 1;
                let mut grow_z = true;
                while grow_z && zp - z < max_merge
                    invariant
                        m1 == tree.as_map(),
                        z < zp <= z + max_merge,
                        box_sampled(
                            m_iter,
                            samples@,
                            x as int,
                            y as int,
                            z as int,
                            x + 1,
                            y + 1,
                            zp as int,
                        ),
                        samples_from(m_iter, samples@),
                        samples@.len() >= 1,
                        samples@[0] == m_iter[k0],
                    decreases z + max_merge - zp, (if grow_z { 1int } else { 0int }),
                {
                    match tree.get_leaf(Coord { x, y, z: zp }) {
                        Some(v) => {
                            let ghost s_pre = samples@;
                            let ghost kk = (x as int, y as int, zp as int);
                            let vv = *v;
                            samples.push(vv);
                            proof {
                                lemma_sampled_push(
                                    m_iter,
                                    s_pre,
                                    vv,
                                    x as int,
                                    y as int,
                                    z as int,
                                    x + 1,
                                    y + 1,
                                    zp as int,
                                );
                                assert(m_iter.dom().contains(kk) && m_iter[kk] == vv);
                                assert(samples@[samples@.len() - 1] == vv);
                                assert(samples_from(m_iter, samples@)) by {
                                    assert forall|j: int|
                                        0 <= j < samples@.len() implies sample_from(
                                        m_iter,
                                        #[trigger] samples@[j],
                                    ) by {
                                        if j < samples@.len() - 1 {
                                            assert(samples@[j] == s_pre[j]);
                                            assert(sample_from(m_iter, s_pre[j]));
                                        } else {
                                            assert(m_iter.dom().contains(kk) && m_iter[kk]
                                                == samples@[j]);
                                        }
                                    };
                                }
                                assert forall|k: (int, int, int)|
                                    #[trigger] box_covers(
                                    x as int,
                                    y as int,
                                    z as int,
                                    x + 1,
                                    y + 1,
                                    zp + 1,
                                    k,
                                ) implies m_iter.dom().contains(k) && samples_contain(
                                    samples@,
                                    m_iter[k],
                                ) by {
                                    if k == kk {
                                        assert(samples@[samples@.len() - 1] == m_iter[k]);
                                    } else {
                                        assert(box_covers(
                                            x as int,
                                            y as int,
                                            z as int,
                                            x + 1,
                                            y + 1,
                                            zp as int,
                                            k,
                                        ));
                                    }
                                };
                            }
                            zp = zp + 1;
                        },
                        None => {
                            grow_z = false;
                        },
                    }
                }
                let mut yp: isize = y + 1;
                let mut grow_y = true;
                while grow_y && yp - y < max_merge
                    invariant
                        m1 == tree.as_map(),
                        y < yp <= y + max_merge,
                        box_sampled(
                            m_iter,
                            samples@,
                            x as int,
                            y as int,
                            z as int,
                            x + 1,
                            yp as int,
                            zp as int,
                        ),
                        samples_from(m_iter, samples@),
                        samples@.len() >= 1,
                        samples@[0] == m_iter[k0],
                    decreases y + max_merge - yp, (if grow_y { 1int } else { 0int }),
                {
                    let mut pass = true;
                    let mut sz: isize = z;
                    while pass && sz < zp
                        invariant
                            m1 == tree.as_map(),
                            z <= sz <= zp,
                            box_sampled(
                                m_iter,
                                samples@,
                                x as int,
                                y as int,
                                z as int,
                                x + 1,
                                yp as int,
                                zp as int,
                            ),
                            pass ==> box_sampled(
                                m_iter,
                                samples@,
                                x as int,
                                yp as int,
                                z as int,
                                x + 1,
                                yp + 1,
                                sz as int,
                            ),
                            samples_from(m_iter, samples@),
                            samples@.len() >= 1,
                            samples@[0] == m_iter[k0],
                        decreases zp - sz, (if pass { 1int } else { 0int }),
                    {
                        match tree.get_leaf(Coord { x, y: yp, z: sz }) {
                            Some(v) => {
                                let ghost s_pre = samples@;
                                let ghost kk = (x as int, yp as int, sz as int);
                                let vv = *v;
                                samples.push(vv);
                                proof {
                                    lemma_sampled_push(
                                        m_iter,
                                        s_pre,
                                        vv,
                                        x as int,
                                        y as int,
                                        z as int,
                                        x + 1,
                                        yp as int,
                                        zp as int,
                                    );
                                    lemma_sampled_push(
                                        m_iter,
                                        s_pre,
                                        vv,
                                        x as int,
                                        yp as int,
                                        z as int,
                                        x + 1,
                                        yp + 1,
                                        sz as int,
                                    );
                                    assert(m_iter.dom().contains(kk) && m_iter[kk] == vv);
                                    assert(samples@[samples@.len() - 1] == vv);
                                    assert(samples_from(m_iter, samples@)) by {
                                        assert forall|j: int|
                                            0 <= j < samples@.len() implies sample_from(
                                            m_iter,
                                            #[trigger] samples@[j],
                                        ) by {
                                            if j < samples@.len() - 1 {
                                                assert(samples@[j] == s_pre[j]);
                                                assert(sample_from(m_iter, s_pre[j]));
                                            } else {
                                                assert(m_iter.dom().contains(kk) && m_iter[kk]
                                                    == samples@[j]);
                                            }
                                        };
                                    }
                                    assert forall|k: (int, int, int)|
                                        #[trigger] box_covers(
                                        x as int,
                                        yp as int,
                                        z as int,
                                        x + 1,
                                        yp + 1,
                                        sz + 1,
                                        k,
                                    ) implies m_iter.dom().contains(k) && samples_contain(
                                        samples@,
                                        m_iter[k],
                                    ) by {
                                        if k == kk {
                                            assert(samples@[samples@.len() - 1] == m_iter[k]);
                                        } else {
                                            assert(box_covers(
                                                x as int,
                                                yp as int,
                                                z as int,
                                                x + 1,
                                                yp + 1,
                                                sz as int,
                                                k,
                                            ));
                                        }
                                    };
                                }
                                sz = sz + 1;
                            },
                            None => {
                                pass = false;
                            },
                        }
                    }
                    if !pass {
                        grow_y = false;
                        continue ;
                    }
                    proof {
                        assert forall|k: (int, int, int)|
                            #[trigger] box_covers(
                            x as int,
                            y as int,
                            z as int,
                            x + 1,
                            yp + 1,
                            zp as int,
                            k,
                        ) implies m_iter.dom().contains(k) && samples_contain(
                            samples@,
                            m_iter[k],
                        ) by {
                            if k.1 == yp as int {
                                assert(box_covers(
                                    x as int,
                                    yp as int,
                                    z as int,
                                    x + 1,
                                    yp + 1,
                                    zp as int,
                                    k,
                                ));
                            } else {
                                assert(box_covers(
                                    x as int,
                                    y as int,
                                    z as int,
                                    x + 1,
                                    yp as int,
                                    zp as int,
                                    k,
                                ));
                            }
                        };
                    }
                    yp = yp + 1;
                }
                let mut xp: isize = x + 1;
                let mut grow_x = true;
                while grow_x && xp - x < max_merge
                    invariant
                        m1 == tree.as_map(),
                        x < xp <= x + max_merge,
                        box_sampled(
                            m_iter,
                            samples@,
                            x as int,
                            y as int,
                            z as int,
                            xp as int,
                            yp as int,
                            zp as int,
                        ),
                        samples_from(m_iter, samples@),
                        samples@.len() >= 1,
                        samples@[0] == m_iter[k0],
                    decreases x + max_merge - xp, (if grow_x { 1int } else { 0int }),
                {
                    let mut pass = true;
                    let mut sy: isize = y;
                    while pass && sy < yp
                        invariant
                            m1 == tree.as_map(),
                            y <= sy <= yp,
                            box_sampled(
                                m_iter,
                                samples@,
                                x as int,
                                y as int,
                                z as int,
                                xp as int,
                                yp as int,
                                zp as int,
                            ),
                            pass ==> box_sampled(
                                m_iter,
                                samples@,
                                xp as int,
                                y as int,
                                z as int,
                                xp + 1,
                                sy as int,
                                zp as int,
                            ),
                            samples_from(m_iter, samples@),
                            samples@.len() >= 1,
                            samples@[0] == m_iter[k0],
                        decreases yp - sy, (if pass { 1int } else { 0int }),
                    {
                        let mut pass2 = true;
                        let mut sz: isize = z;
                        while pass2 && sz < zp
                            invariant
                                m1 == tree.as_map(),
                                z <= sz <= zp,
                                box_sampled(
                                    m_iter,
                                    samples@,
                                    x as int,
                                    y as int,
                                    z as int,
                                    xp as int,
                                    yp as int,
                                    zp as int,
                                ),
                                pass ==> box_sampled(
                                    m_iter,
                                    samples@,
                                    xp as int,
                                    y as int,
                                    z as int,
                                    xp + 1,
                                    sy as int,
                                    zp as int,
                                ),
                                pass2 ==> box_sampled(
                                    m_iter,
                                    samples@,
                                    xp as int,
                                    sy as int,
                                    z as int,
                                    xp + 1,
                                    sy + 1,
                                    sz as int,
                                ),
                                samples_from(m_iter, samples@),
                                samples@.len() >= 1,
                                samples@[0] == m_iter[k0],
                            decreases zp - sz, (if pass2 { 1int } else { 0int }),
                        {
                            match tree.get_leaf(Coord { x: xp, y: sy, z: sz }) {
                                Some(v) => {
                                    let ghost s_pre = samples@;
                                    let ghost kk = (xp as int, sy as int, sz as int);
                                    let vv = *v;
                                    samples.push(vv);
                                    proof {
                                        lemma_sampled_push(
                                            m_iter,
                                            s_pre,
                                            vv,
                                            x as int,
                                            y as int,
                                            z as int,
                                            xp as int,
                                            yp as int,
                                            zp as int,
                                        );
                                        lemma_sampled_push(
                                            m_iter,
                                            s_pre,
                                            vv,
                                            xp as int,
                                            y as int,
                                            z as int,
                                            xp + 1,
                                            sy as int,
                                            zp as int,
                                        );
                                        lemma_sampled_push(
                                            m_iter,
                                            s_pre,
                                            vv,
                                            xp as int,
                                            sy as int,
                                            z as int,
                                            xp + 1,
                                            sy + 1,
                                            sz as int,
                                        );
                                        assert(m_iter.dom().contains(kk) && m_iter[kk] == vv);
                                        assert(samples@[samples@.len() - 1] == vv);
                                        assert(samples_from(m_iter, samples@)) by {
                                            assert forall|j: int|
                                                0 <= j < samples@.len() implies sample_from(
                                                m_iter,
                                                #[trigger] samples@[j],
                                            ) by {
                                                if j < samples@.len() - 1 {
                                                    assert(samples@[j] == s_pre[j]);
                                                    assert(sample_from(m_iter, s_pre[j]));
                                                } else {
                                                    assert(m_iter.dom().contains(kk) && m_iter[kk]
                                                        == samples@[j]);
                                                }
                                            };
                                        }
                                        assert forall|k: (int, int, int)|
                                            #[trigger] box_covers(
                                            xp as int,
                                            sy as int,
                                            z as int,
                                            xp + 1,
                                            sy + 1,
                                            sz + 1,
                                            k,
                                        ) implies m_iter.dom().contains(k) && samples_contain(
                                            samples@,
                                            m_iter[k],
                                        ) by {
                                            if k == kk {
                                                assert(samples@[samples@.len() - 1] == m_iter[k]);
                                            } else {
                                                assert(box_covers(
                                                    xp as int,
                                                    sy as int,
                                                    z as int,
                                                    xp + 1,
                                                    sy + 1,
                                                    sz as int,
                                                    k,
                                                ));
                                            }
                                        };
                                    }
                                    sz = sz + 1;
                                },
                                None => {
                                    pass2 = false;
                                },
                            }
                        }
                        if !pass2 {
                            pass = false;
                            continue ;
                        }
                        proof {
                            assert forall|k: (int, int, int)|
                                #[trigger] box_covers(
                                xp as int,
                                y as int,
                                z as int,
                                xp + 1,
                                sy + 1,
                                zp as int,
                                k,
                            ) implies m_iter.dom().contains(k) && samples_contain(
                                samples@,
                                m_iter[k],
                            ) by {
                                if k.1 == sy as int {
                                    assert(box_covers(
                                        xp as int,
                                        sy as int,
                                        z as int,
                                        xp + 1,
                                        sy + 1,
                                        zp as int,
                                        k,
                                    ));
                                } else {
                                    assert(box_covers(
                                        xp as int,
                                        y as int,
                                        z as int,
                                        xp + 1,
                                        sy as int,
                                        zp as int,
                                        k,
                                    ));
                                }
                            };
                        }
                        sy = sy + 1;
                    }
                    if !pass {
                        grow_x = false;
                        continue ;
                    }
                    proof {
                        assert forall|k: (int, int, int)|
                            #[trigger] box_covers(
                            x as int,
                            y as int,
                            z as int,
                            xp + 1,
                            yp as int,
                            zp as int,
                            k,
                        ) implies m_iter.dom().contains(k) && samples_contain(
                            samples@,
                            m_iter[k],
                        ) by {
                            if k.0 == xp as int {
                                assert(box_covers(
                                    xp as int,
                                    y as int,
                                    z as int,
                                    xp + 1,
                                    yp as int,
                                    zp as int,
                                    k,
                                ));
                            } else {
                                assert(box_covers(
                                    x as int,
                                    y as int,
                                    z as int,
                                    xp as int,
                                    yp as int,
                                    zp as int,
                                    k,
                                ));
                            }
                        };
                    }
                    xp = xp + 1;
                }
                proof {
                    // coordinate ranges of the box ends
                    if zp > z + 1 {
                        assert(box_covers(
                            x as int,
                            y as int,
                            z as int,
                            xp as int,
                            yp as int,
                            zp as int,
                            (x as int, y as int, zp - 1),
                        ));
                        lemma_in_bounds_numeric(t_pre, (x as int, y as int, zp - 1));
                    }
                    if yp > y + 1 {
                        assert(box_covers(
                            x as int,
                            y as int,
                            z as int,
                            xp as int,
                            yp as int,
                            zp as int,
                            (x as int, yp - 1, z as int),
                        ));
                        lemma_in_bounds_numeric(t_pre, (x as int, yp - 1, z as int));
                    }
                    if xp > x + 1 {
                        assert(box_covers(
                            x as int,
                            y as int,
                            z as int,
                            xp as int,
                            yp as int,
                            zp as int,
                            (xp - 1, y as int, z as int),
                        ));
                        lemma_in_bounds_numeric(t_pre, (xp - 1, y as int, z as int));
                    }
                }
                // clear every covered cell
                let mut sx: isize = x;
                while sx < xp
                    invariant
                        x <= sx <= xp,
                        tree.wf(),
                        tree.size_spec() == old(tree).size_spec(),
                        forall|k: (int, int, int)| #[trigger]
                            tree.as_map().dom().contains(k) == (m1.dom().contains(k) && !(
                            box_covers(
                                x as int,
                                y as int,
                                z as int,
                                xp as int,
                                yp as int,
                                zp as int,
                                k,
                            ) && k.0 < sx)),
                        forall|k: (int, int, int)| #[trigger]
                            tree.as_map().dom().contains(k) ==> tree.as_map()[k] == m1[k],
                    decreases xp - sx,
                {
                    let mut sy: isize = y;
                    while sy < yp
                        invariant
                            y <= sy <= yp,
                            x <= sx < xp,
                            tree.wf(),
                            tree.size_spec() == old(tree).size_spec(),
                            forall|k: (int, int, int)| #[trigger]
                                tree.as_map().dom().contains(k) == (m1.dom().contains(k) && !(
                                box_covers(
                                    x as int,
                                    y as int,
                                    z as int,
                                    xp as int,
                                    yp as int,
                                    zp as int,
                                    k,
                                ) && (k.0 < sx || (k.0 == sx && k.1 < sy)))),
                            forall|k: (int, int, int)| #[trigger]
                                tree.as_map().dom().contains(k) ==> tree.as_map()[k] == m1[k],
                        decreases yp - sy,
                    {
                        let mut sz: isize = z;
                        while sz < zp
                            invariant
                                z <= sz <= zp,
                                y <= sy < yp,
                                x <= sx < xp,
                                tree.wf(),
                                tree.size_spec() == old(tree).size_spec(),
                                forall|k: (int, int, int)| #[trigger]
                                    tree.as_map().dom().contains(k) == (m1.dom().contains(k) && !(
                                    box_covers(
                                        x as int,
                                        y as int,
                                        z as int,
                                        xp as int,
                                        yp as int,
                                        zp as int,
                                        k,
                                    ) && (k.0 < sx || (k.0 == sx && k.1 < sy) || (k.0 == sx && k.1
                                        == sy && k.2 < sz)))),
                                forall|k: (int, int, int)| #[trigger]
                                    tree.as_map().dom().contains(k) ==> tree.as_map()[k] == m1[k],
                            decreases zp - sz,
                        {
                            tree.clear_leaf(Coord { x: sx, y: sy, z: sz });
                            sz = sz + 1;
                        }
                        sy = sy + 1;
                    }
                    sx = sx + 1;
                }
                // emit the brick for the cleared box
                let width = xp - x;
                let height = yp - y;
                let depth = zp - z;
                let bsize = scaled_size(scale, (width, depth, height));
                let bpos = scaled_pos(scale, (width, depth, height), (x, z, y));
                let b = SampledBrick {
                    x,
                    y,
                    z,
                    width,
                    height,
                    depth,
                    asset_name_index: asset,
                    owner_index: 1,
                    material_intensity,
                    size_x: bsize.0,
                    size_y: bsize.1,
                    size_z: bsize.2,
                    position_x: bpos.0,
                    position_y: bpos.1,
                    position_z: bpos.2,
                    samples,
                };
                let ghost bricks_pre = bricks@;
                let ghost bg = b;
                bricks.push(b);
                proof {
                    lemma_tree_map_finite(*tree);
                    assert(sampled_corner(bg) == k0);
                    assert(m_all.dom().contains(k0) && m_all[k0] == v0);
                    assert(sampled_brick_ok(
                        bg,
                        m_all,
                        bricktype,
                        material_intensity,
                        max_merge as int,
                    )) by {
                        assert(bg.samples@[0] == m_all[sampled_corner(bg)]);
                        assert(samples_from(m_all, bg.samples@)) by {
                            assert forall|j: int|
                                0 <= j < bg.samples@.len() implies sample_from(
                                m_all,
                                #[trigger] bg.samples@[j],
                            ) by {
                                assert(sample_from(m_iter, bg.samples@[j]));
                                let kw = choose|k: (int, int, int)|
                                    #[trigger] m_iter.dom().contains(k) && m_iter[k]
                                        == bg.samples@[j];
                                assert(m_all.dom().contains(kw) && m_all[kw] == bg.samples@[j]);
                            };
                        }
                        assert forall|k: (int, int, int)|
                            #[trigger] sampled_covers(bg, k) implies m_all.dom().contains(k)
                            && samples_contain(bg.samples@, m_all[k]) by {
                            assert(box_covers(
                                x as int,
                                y as int,
                                z as int,
                                xp as int,
                                yp as int,
                                zp as int,
                                k,
                            ));
                            assert(m_iter.dom().contains(k) && samples_contain(
                                bg.samples@,
                                m_iter[k],
                            ));
                        };
                    }
                    // the new tree map lost exactly the box
                    assert forall|k: (int, int, int)| #[trigger]
                        tree.as_map().dom().contains(k) == (m_iter.dom().contains(k)
                        && !sampled_covers(bg, k)) by {
                        if !sampled_covers(bg, k) && k != k0 {
                            assert(m1.dom().contains(k) == m_iter.dom().contains(k));
                        }
                    };
                    // the outer-loop measure shrinks
                    assert(tree.as_map().dom().subset_of(m_iter.dom().remove(k0)));
                    vstd::set_lib::lemma_len_subset(tree.as_map().dom(), m_iter.dom().remove(k0));
                    // coverage bookkeeping for the outer loop
                    assert forall|k: (int, int, int)| #[trigger]
                        m_all.dom().contains(k) && !tree.as_map().dom().contains(k) implies exists|
                        i: int,
                    |
                        0 <= i < bricks@.len() && #[trigger] sampled_covers(bricks@[i], k) by {
                        if sampled_covers(bg, k) {
                            assert(sampled_covers(bricks@[bricks@.len() - 1], k));
                        } else {
                            assert(!m_iter.dom().contains(k));
                            assert(exists|i: int|
                                0 <= i < bricks_pre.len() && #[trigger] sampled_covers(
                                    bricks_pre[i],
                                    k,
                                ));
                            let i0 = choose|i: int|
                                0 <= i < bricks_pre.len() && #[trigger] sampled_covers(
                                    bricks_pre[i],
                                    k,
                                );
                            assert(sampled_covers(bricks@[i0], k));
                        }
                    };
                    // the new brick overlaps no earlier one
                    assert forall|i: int, k: (int, int, int)|
                        0 <= i < bricks@.len() - 1 && #[trigger] sampled_covers(
                            bricks@[i],
                            k,
                        ) implies !(#[trigger] sampled_covers(bricks@[bricks@.len() - 1], k)) by {
                        if sampled_covers(bg, k) {
                            assert(box_covers(
                                x as int,
                                y as int,
                                z as int,
                                xp as int,
                                yp as int,
                                zp as int,
                                k,
                            ));
                            assert(m_iter.dom().contains(k));
                            assert(sampled_covers(bricks_pre[i], k));
                        }
                    };
                    // emission stays in scan order
                    let ghost oo = old(tree).origin_spec();
                    let ghost ssz = old(tree).size_spec() as nat;
                    assert(sampled_corner(bricks@[bricks@.len() - 1]) == k0);
                    assert forall|i: int, j: int|
                        0 <= i < j < bricks@.len() implies scan_le(
                        sampled_corner(#[trigger] bricks@[i]),
                        sampled_corner(#[trigger] bricks@[j]),
                        oo,
                        ssz,
                    ) by {
                        if j == bricks@.len() - 1 {
                            assert(m_iter.dom().contains(k0));
                            assert(sampled_corner(bricks_pre[i]) == sampled_corner(bricks@[i]));
                        } else {
                            assert(sampled_corner(bricks_pre[i]) == sampled_corner(bricks@[i]));
                            assert(sampled_corner(bricks_pre[j]) == sampled_corner(bricks@[j]));
                        }
                    };
                    assert forall|i: int, k: (int, int, int)|
                        0 <= i < bricks@.len() && #[trigger] tree.as_map().dom().contains(
                            k,
                        ) implies scan_le(sampled_corner(#[trigger] bricks@[i]), k, oo, ssz) by {
                        assert(m_iter.dom().contains(k));
                        if i < bricks@.len() - 1 {
                            assert(sampled_corner(bricks_pre[i]) == sampled_corner(bricks@[i]));
                        }
                    };
                }
            },
        }
    }
}

} // verus!
