//! A sparse, growable octree over signed integer 3-D coordinates.
//!
//! The tree subdivides a cube centered on the origin into octants, down to
//! unit cells ("voxels"). A tree of size `s` spans `[-2^(s-1), 2^(s-1))` on
//! every axis, so each axis holds `2^s` unit cells. Leaves carry a payload of
//! type `T` and live only at unit depth; interior nodes hold eight children,
//! addressed by a 3-bit octant code (bit 2 = x, bit 1 = y, bit 0 = z, a set
//! bit meaning the half nearer `+infinity`).
//!
//! The tree is interpreted as a finite map from coordinates to payloads, and
//! every operation is specified against that map.

use vstd::prelude::*;

verus! {

use vstd::arithmetic::power2::*;
use vstd::map::*;

/// Largest allowed tree size. Keeps every coordinate, extent and scaled brick
/// position comfortably inside the machine integer types used here.
pub const MAX_SIZE: u32 = 27;

/// A voxel coordinate: the corner of a unit cell nearest `-infinity`.
#[derive(Clone, Copy, PartialEq, Eq, Structural, Debug)]
pub struct Coord {
    pub x: isize,
    pub y: isize,
    pub z: isize,
}

impl View for Coord {
    type V = (int, int, int);

    open spec fn view(&self) -> (int, int, int) {
        (self.x as int, self.y as int, self.z as int)
    }
}

/// Errors reported by tree operations.
#[derive(Clone, Copy, PartialEq, Eq, Structural, Debug)]
pub enum TreeError {
    /// The coordinate lies outside the tree's current span; the caller must
    /// grow the tree first.
    OutOfBounds,
}

/// One node of the octree: empty space, a unit-cell payload, or eight
/// sub-octants.
pub enum TreeBody<T> {
    Empty,
    Leaf(T),
    Branch(Vec<TreeBody<T>>),
}

/// True iff `k` lies in the axis-aligned cube of side `2^d` whose
/// least corner is `o`.
pub open spec fn in_cube(k: (int, int, int), o: (int, int, int), d: nat) -> bool {
    &&& o.0 <= k.0 < o.0 + pow2(d)
    &&& o.1 <= k.1 < o.1 + pow2(d)
    &&& o.2 <= k.2 < o.2 + pow2(d)
}

/// Least corner of octant `i` of the cube of side `2^d` at corner `o`.
pub open spec fn octant_origin(o: (int, int, int), d: nat, i: int) -> (int, int, int)
    recommends
        d >= 1,
{
    (
        o.0 + if i >= 4 { pow2((d - 1) as nat) as int } else { 0int },
        o.1 + if i % 4 >= 2 { pow2((d - 1) as nat) as int } else { 0int },
        o.2 + if i % 2 == 1 { pow2((d - 1) as nat) as int } else { 0int },
    )
}

/// Octant code of the sub-cube of the cube of side `2^d` at corner `o`
/// that contains `k`.
pub open spec fn octant_of(k: (int, int, int), o: (int, int, int), d: nat) -> int
    recommends
        d >= 1,
{
    (if k.0 >= o.0 + pow2((d - 1) as nat) { 4int } else { 0int })
    + (if k.1 >= o.1 + pow2((d - 1) as nat) { 2int } else { 0int })
    + (if k.2 >= o.2 + pow2((d - 1) as nat) { 1int } else { 0int })
}

impl<T> TreeBody<T> {
    /// Shape discipline of a node standing at depth `d`: leaves only at unit
    /// depth, branches only above it, and branches always eight-wide.
    pub open spec fn wf(self, d: nat) -> bool
        decreases self,
    {
        match self {
            TreeBody::Empty => true,
            TreeBody::Leaf(_) => d == 0,
            TreeBody::Branch(cs) => {
                &&& d >= 1
                &&& cs@.len() == 8
                &&& forall|i: int| 0 <= i < 8 ==> (#[trigger] cs@[i]).wf((d - 1) as nat)
            },
        }
    }

    /// The finite map of voxels held by a node standing at depth `d`, whose
    /// cube has least corner `o`.
    pub open spec fn as_map(self, d: nat, o: (int, int, int)) -> Map<(int, int, int), T>
        decreases self,
    {
        match self {
            TreeBody::Empty => Map::empty(),
            TreeBody::Leaf(t) => Map::empty().insert(o, t),
            TreeBody::Branch(cs) => {
                if cs@.len() == 8 {
                    cs@[0].as_map((d - 1) as nat, octant_origin(o, d, 0))
                        .union_prefer_right(cs@[1].as_map((d - 1) as nat, octant_origin(o, d, 1)))
                        .union_prefer_right(cs@[2].as_map((d - 1) as nat, octant_origin(o, d, 2)))
                        .union_prefer_right(cs@[3].as_map((d - 1) as nat, octant_origin(o, d, 3)))
                        .union_prefer_right(cs@[4].as_map((d - 1) as nat, octant_origin(o, d, 4)))
                        .union_prefer_right(cs@[5].as_map((d - 1) as nat, octant_origin(o, d, 5)))
                        .union_prefer_right(cs@[6].as_map((d - 1) as nat, octant_origin(o, d, 6)))
                        .union_prefer_right(cs@[7].as_map((d - 1) as nat, octant_origin(o, d, 7)))
                } else {
                    Map::empty()
                }
            },
        }
    }
}

/// The growable octree itself: a root node together with its size.
pub struct VoxelTree<T> {
    size: u32,
    contents: TreeBody<T>,
}

impl<T> VoxelTree<T> {
    /// Well-formedness: a legal size and a root of matching shape.
    pub closed spec fn wf(self) -> bool {
        &&& 1 <= self.size <= MAX_SIZE
        &&& self.contents.wf(self.size as nat)
    }

    /// The tree's current size (depth of subdivision).
    pub closed spec fn size_spec(self) -> u32 {
        self.size
    }

    /// Half of the tree's span: the root cube reaches from `-half_spec()`
    /// (inclusive) to `half_spec()` (exclusive) on every axis.
    pub open spec fn half_spec(self) -> int {
        pow2((self.size_spec() - 1) as nat) as int
    }

    /// Least corner of the root cube.
    pub open spec fn origin_spec(self) -> (int, int, int) {
        (-self.half_spec(), -self.half_spec(), -self.half_spec())
    }

    /// The tree viewed as a finite map from coordinates to leaf payloads.
    pub closed spec fn as_map(self) -> Map<(int, int, int), T> {
        self.contents.as_map(self.size_spec() as nat, self.origin_spec())
    }

    /// True iff `k` lies within the tree's current span on all axes.
    pub open spec fn in_bounds(self, k: (int, int, int)) -> bool {
        in_cube(k, self.origin_spec(), self.size_spec() as nat)
    }

    /// A fresh tree of size 1 holding nothing.
    pub fn new() -> (tree: Self)
        ensures
            tree.wf(),
            tree.size_spec() == 1,
            tree.as_map() == Map::<(int, int, int), T>::empty(),
    {
        VoxelTree { size: 1, contents: TreeBody::Empty }
    }

    /// The tree's current size.
    pub fn size(&self) -> (s: u32)
        ensures
            s == self.size_spec(),
    {
        self.size
    }

    /// Whether `c` lies within the tree's current span on all axes.
    pub fn contains_bounds(&self, c: Coord) -> (r: bool)
        requires
            self.wf(),
        ensures
            r == self.in_bounds(c@),
    {
        proof {
            lemma_pow2_unfold(self.size as nat);
        }
        let half = pow2_isize(self.size - 1);
        -half <= c.x && c.x < half && -half <= c.y && c.y < half && -half <= c.z && c.z < half
    }
}

/// The children of a branch node, or the empty sequence for other nodes.
pub open spec fn children_of<T>(node: TreeBody<T>) -> Seq<TreeBody<T>> {
    match node {
        TreeBody::Branch(cs) => cs@,
        _ => Seq::empty(),
    }
}

/// Everything a well-formed node holds lies inside the node's own cube.
pub proof fn lemma_as_map_in_cube<T>(node: TreeBody<T>, d: nat, o: (int, int, int))
    requires
        node.wf(d),
    ensures
        forall|k: (int, int, int)|
            #[trigger] node.as_map(d, o).dom().contains(k) ==> in_cube(k, o, d),
    decreases d,
{
    lemma_pow2_pos(d);
    match node {
        TreeBody::Empty => {},
        TreeBody::Leaf(_) => {},
        TreeBody::Branch(cs) => {
            lemma_pow2_unfold(d);
            lemma_octant_sub(o, d);
            let sub = (d - 1) as nat;
            lemma_as_map_in_cube(cs@[0], sub, octant_origin(o, d, 0));
            lemma_as_map_in_cube(cs@[1], sub, octant_origin(o, d, 1));
            lemma_as_map_in_cube(cs@[2], sub, octant_origin(o, d, 2));
            lemma_as_map_in_cube(cs@[3], sub, octant_origin(o, d, 3));
            lemma_as_map_in_cube(cs@[4], sub, octant_origin(o, d, 4));
            lemma_as_map_in_cube(cs@[5], sub, octant_origin(o, d, 5));
            lemma_as_map_in_cube(cs@[6], sub, octant_origin(o, d, 6));
            lemma_as_map_in_cube(cs@[7], sub, octant_origin(o, d, 7));
            assert forall|k: (int, int, int)|
                #[trigger] node.as_map(d, o).dom().contains(k) implies in_cube(k, o, d) by {
                assert(cs@[0].as_map(sub, octant_origin(o, d, 0)).dom().contains(k) || cs@[1].as_map(
                    sub,
                    octant_origin(o, d, 1),
                ).dom().contains(k) || cs@[2].as_map(sub, octant_origin(o, d, 2)).dom().contains(k)
                    || cs@[3].as_map(sub, octant_origin(o, d, 3)).dom().contains(k) || cs@[4].as_map(
                    sub,
                    octant_origin(o, d, 4),
                ).dom().contains(k) || cs@[5].as_map(sub, octant_origin(o, d, 5)).dom().contains(k)
                    || cs@[6].as_map(sub, octant_origin(o, d, 6)).dom().contains(k) || cs@[7].as_map(
                    sub,
                    octant_origin(o, d, 7),
                ).dom().contains(k));
            };
        },
    }
}

/// A point of a cube lies in exactly one of its octants: the one named by
/// `octant_of`.
pub proof fn lemma_octant(k: (int, int, int), o: (int, int, int), d: nat)
    requires
        d >= 1,
        in_cube(k, o, d),
    ensures
        0 <= octant_of(k, o, d) < 8,
        in_cube(k, octant_origin(o, d, octant_of(k, o, d)), (d - 1) as nat),
        forall|i: int|
            0 <= i < 8 && i != octant_of(k, o, d) ==> !in_cube(
                k,
                #[trigger] octant_origin(o, d, i),
                (d - 1) as nat,
            ),
{
    lemma_pow2_unfold(d);
    lemma_pow2_pos((d - 1) as nat);
}

/// Octant cubes lie inside their parent cube.
pub proof fn lemma_octant_sub(o: (int, int, int), d: nat)
    requires
        d >= 1,
    ensures
        forall|k: (int, int, int), i: int|
            0 <= i < 8 && #[trigger] in_cube(k, octant_origin(o, d, i), (d - 1) as nat)
                ==> in_cube(k, o, d),
{
    lemma_pow2_unfold(d);
    lemma_pow2_pos((d - 1) as nat);
}

/// Value of a chain of eight unions at a point contained in at most the
/// map chosen by `i`.
#[verifier::spinoff_prover]
proof fn lemma_union8_at<T>(
    a0: Map<(int, int, int), T>,
    a1: Map<(int, int, int), T>,
    a2: Map<(int, int, int), T>,
    a3: Map<(int, int, int), T>,
    a4: Map<(int, int, int), T>,
    a5: Map<(int, int, int), T>,
    a6: Map<(int, int, int), T>,
    a7: Map<(int, int, int), T>,
    k: (int, int, int),
    i: int,
    m: Map<(int, int, int), T>,
)
    requires
        0 <= i < 8,
        i != 0 ==> !a0.dom().contains(k),
        i == 0 ==> m == a0,
        i != 1 ==> !a1.dom().contains(k),
        i == 1 ==> m == a1,
        i != 2 ==> !a2.dom().contains(k),
        i == 2 ==> m == a2,
        i != 3 ==> !a3.dom().contains(k),
        i == 3 ==> m == a3,
        i != 4 ==> !a4.dom().contains(k),
        i == 4 ==> m == a4,
        i != 5 ==> !a5.dom().contains(k),
        i == 5 ==> m == a5,
        i != 6 ==> !a6.dom().contains(k),
        i == 6 ==> m == a6,
        i != 7 ==> !a7.dom().contains(k),
        i == 7 ==> m == a7,
    ensures
        (a0.union_prefer_right(a1).union_prefer_right(a2).union_prefer_right(a3).union_prefer_right(a4).union_prefer_right(a5).union_prefer_right(a6).union_prefer_right(a7)).dom().contains(k) == m.dom().contains(k),
        m.dom().contains(k) ==> (a0.union_prefer_right(a1).union_prefer_right(a2).union_prefer_right(a3).union_prefer_right(a4).union_prefer_right(a5).union_prefer_right(a6).union_prefer_right(a7))[k] == m[k],
{
    let u = a0.union_prefer_right(a1).union_prefer_right(a2).union_prefer_right(a3).union_prefer_right(a4).union_prefer_right(a5).union_prefer_right(a6).union_prefer_right(a7);
    if i == 0 {
        assert(u.dom().contains(k) == a0.dom().contains(k));
        assert(a0.dom().contains(k) ==> u[k] == a0[k]);
    } else if i == 1 {
        assert(u.dom().contains(k) == a1.dom().contains(k));
        assert(a1.dom().contains(k) ==> u[k] == a1[k]);
    } else if i == 2 {
        assert(u.dom().contains(k) == a2.dom().contains(k));
        assert(a2.dom().contains(k) ==> u[k] == a2[k]);
    } else if i == 3 {
        assert(u.dom().contains(k) == a3.dom().contains(k));
        assert(a3.dom().contains(k) ==> u[k] == a3[k]);
    } else if i == 4 {
        assert(u.dom().contains(k) == a4.dom().contains(k));
        assert(a4.dom().contains(k) ==> u[k] == a4[k]);
    } else if i == 5 {
        assert(u.dom().contains(k) == a5.dom().contains(k));
        assert(a5.dom().contains(k) ==> u[k] == a5[k]);
    } else if i == 6 {
        assert(u.dom().contains(k) == a6.dom().contains(k));
        assert(a6.dom().contains(k) ==> u[k] == a6[k]);
    } else if i == 7 {
        assert(u.dom().contains(k) == a7.dom().contains(k));
        assert(a7.dom().contains(k) ==> u[k] == a7[k]);
    }
}

/// What a branch holds at a point is what the point's octant holds there.
pub proof fn lemma_branch_at<T>(node: TreeBody<T>, d: nat, o: (int, int, int), k: (int, int, int))
    requires
        node.wf(d),
        node matches TreeBody::Branch(_),
    ensures
        !in_cube(k, o, d) ==> !node.as_map(d, o).dom().contains(k),
        in_cube(k, o, d) ==> ({
            let i = octant_of(k, o, d);
            let cmap = children_of(node)[i].as_map((d - 1) as nat, octant_origin(o, d, i));
            &&& node.as_map(d, o).dom().contains(k) == cmap.dom().contains(k)
            &&& (cmap.dom().contains(k) ==> node.as_map(d, o)[k] == cmap[k])
        }),
{
    match node {
        TreeBody::Branch(cs) => {
            let sub = (d - 1) as nat;
            lemma_octant_sub(o, d);
            lemma_as_map_in_cube(cs@[0], sub, octant_origin(o, d, 0));
            lemma_as_map_in_cube(cs@[1], sub, octant_origin(o, d, 1));
            lemma_as_map_in_cube(cs@[2], sub, octant_origin(o, d, 2));
            lemma_as_map_in_cube(cs@[3], sub, octant_origin(o, d, 3));
            lemma_as_map_in_cube(cs@[4], sub, octant_origin(o, d, 4));
            lemma_as_map_in_cube(cs@[5], sub, octant_origin(o, d, 5));
            lemma_as_map_in_cube(cs@[6], sub, octant_origin(o, d, 6));
            lemma_as_map_in_cube(cs@[7], sub, octant_origin(o, d, 7));
            assert(node.as_map(d, o) == cs@[0].as_map(sub, octant_origin(o, d, 0)).union_prefer_right(
                cs@[1].as_map(sub, octant_origin(o, d, 1)),
            ).union_prefer_right(cs@[2].as_map(sub, octant_origin(o, d, 2))).union_prefer_right(
                cs@[3].as_map(sub, octant_origin(o, d, 3)),
            ).union_prefer_right(cs@[4].as_map(sub, octant_origin(o, d, 4))).union_prefer_right(
                cs@[5].as_map(sub, octant_origin(o, d, 5)),
            ).union_prefer_right(cs@[6].as_map(sub, octant_origin(o, d, 6))).union_prefer_right(
                cs@[7].as_map(sub, octant_origin(o, d, 7)),
            ));
            if in_cube(k, o, d) {
                lemma_octant(k, o, d);
                let i = octant_of(k, o, d);
                assert forall|j: int|
                    0 <= j < 8 && j != i implies !(#[trigger] cs@[j].as_map(
                    sub,
                    octant_origin(o, d, j),
                )).dom().contains(k) by {
                    if cs@[j].as_map(sub, octant_origin(o, d, j)).dom().contains(k) {
                        assert(in_cube(k, octant_origin(o, d, j), sub));
                    }
                };
                lemma_union8_at(
                    cs@[0].as_map(sub, octant_origin(o, d, 0)),
                    cs@[1].as_map(sub, octant_origin(o, d, 1)),
                    cs@[2].as_map(sub, octant_origin(o, d, 2)),
                    cs@[3].as_map(sub, octant_origin(o, d, 3)),
                    cs@[4].as_map(sub, octant_origin(o, d, 4)),
                    cs@[5].as_map(sub, octant_origin(o, d, 5)),
                    cs@[6].as_map(sub, octant_origin(o, d, 6)),
                    cs@[7].as_map(sub, octant_origin(o, d, 7)),
                    k,
                    i,
                    cs@[i].as_map(sub, octant_origin(o, d, i)),
                );
            } else {
                lemma_as_map_in_cube(node, d, o);
            }
        },
        _ => {},
    }
}

/// A vector of eight empty nodes.
fn empty_children<T>() -> (v: Vec<TreeBody<T>>)
    ensures
        v@.len() == 8,
        forall|i: int| 0 <= i < 8 ==> #[trigger] v@[i] matches TreeBody::Empty,
{
    let mut v: Vec<TreeBody<T>> = Vec::new();
    v.push(TreeBody::Empty);
    v.push(TreeBody::Empty);
    v.push(TreeBody::Empty);
    v.push(TreeBody::Empty);
    v.push(TreeBody::Empty);
    v.push(TreeBody::Empty);
    v.push(TreeBody::Empty);
    v.push(TreeBody::Empty);
    v
}

/// Swaps the child at `i` for `new`, handing the old child back.
fn replace_child<T>(cs: &mut Vec<TreeBody<T>>, i: usize, new: TreeBody<T>) -> (old_c: TreeBody<T>)
    requires
        i < old(cs)@.len(),
    ensures
        final(cs)@ == old(cs)@.update(i as int, new),
        old_c == old(cs)@[i as int],
{
    let old_c = cs.remove(i);
    cs.insert(i, new);
    proof {
        assert(cs@ =~= old(cs)@.update(i as int, new));
    }
    old_c
}

/// Bounds on a node's corner that keep the exec coordinate arithmetic inside
/// `isize`.
pub open spec fn corner_ok(ox: int, oy: int, oz: int, d: nat) -> bool {
    &&& d <= MAX_SIZE
    &&& -(pow2(MAX_SIZE as nat) as int) <= ox && ox + pow2(d) <= pow2(MAX_SIZE as nat)
    &&& -(pow2(MAX_SIZE as nat) as int) <= oy && oy + pow2(d) <= pow2(MAX_SIZE as nat)
    &&& -(pow2(MAX_SIZE as nat) as int) <= oz && oz + pow2(d) <= pow2(MAX_SIZE as nat)
}

/// Writes `v` into the unit cell at `c` of a node standing at depth `d` with
/// corner `(ox, oy, oz)`, creating branches along the path as needed.
#[verifier::rlimit(50)]
#[verifier::spinoff_prover]
fn body_set<T>(node: TreeBody<T>, d: u32, ox: isize, oy: isize, oz: isize, c: Coord, v: T) -> (res:
    TreeBody<T>)
    requires
        node.wf(d as nat),
        corner_ok(ox as int, oy as int, oz as int, d as nat),
        in_cube(c@, (ox as int, oy as int, oz as int), d as nat),
    ensures
        res.wf(d as nat),
        res.as_map(d as nat, (ox as int, oy as int, oz as int)) == node.as_map(
            d as nat,
            (ox as int, oy as int, oz as int),
        ).insert(c@, v),
    decreases d,
{
    let ghost o = (ox as int, oy as int, oz as int);
    let ghost m0 = node.as_map(d as nat, o);
    proof {
        lemma2_to64();
    }
    if d == 0 {
        let res = TreeBody::Leaf(v);
        proof {
            assert(c@ == o);
            assert(res.as_map(0, o) =~= m0.insert(c@, v));
        }
        res
    } else {
        proof {
            lemma_pow2_strictly_increases((d - 1) as nat, d as nat);
            lemma_pow2_strictly_increases(d as nat, (MAX_SIZE + 1) as nat);
            lemma_pow2_unfold((MAX_SIZE + 1) as nat);
        }
        let h = pow2_isize(d - 1);
        let (bx, cx) = if c.x >= ox + h {
            (4usize, ox + h)
        } else {
            (0usize, ox)
        };
        let (by, cy) = if c.y >= oy + h {
            (2usize, oy + h)
        } else {
            (0usize, oy)
        };
        let (bz, cz) = if c.z >= oz + h {
            (1usize, oz + h)
        } else {
            (0usize, oz)
        };
        let i = bx + by + bz;
        proof {
            lemma_octant(c@, o, d as nat);
            assert(i == octant_of(c@, o, d as nat));
            assert((cx as int, cy as int, cz as int) == octant_origin(o, d as nat, i as int));
        }
        let ghost nodeg = node;
        let ghost sub = (d - 1) as nat;
        let mut cs = match node {
            TreeBody::Branch(cs) => cs,
            TreeBody::Empty => empty_children(),
            TreeBody::Leaf(_) => {
                proof {
                    assert(false);
                }
                empty_children()
            },
        };
        let ghost cs0 = cs@;
        proof {
            assert(forall|j: int| 0 <= j < 8 ==> (#[trigger] cs0[j]).wf(sub));
            assert(m0 == Map::<(int, int, int), T>::empty() || (nodeg matches TreeBody::Branch(
                b,
            ) && b@ == cs0));
        }
        let child = replace_child(&mut cs, i, TreeBody::Empty);
        let child = body_set(child, d - 1, cx, cy, cz, c, v);
        let _placeholder = replace_child(&mut cs, i, child);
        proof {
            assert(cs@ =~= cs0.update(i as int, child));
        }
        let res = TreeBody::Branch(cs);
        proof {
            assert(res.wf(d as nat));
            let co = octant_origin(o, d as nat, i as int);
            let target = m0.insert(c@, v);
            assert(res.as_map(d as nat, o) =~= target) by {
                assert forall|k: (int, int, int)|
                    #![trigger res.as_map(d as nat, o).dom().contains(k)]
                    #![trigger target.dom().contains(k)]
                    true implies {
                    &&& res.as_map(d as nat, o).dom().contains(k) == target.dom().contains(k)
                    &&& (res.as_map(d as nat, o).dom().contains(k) ==> res.as_map(d as nat, o)[k]
                        == target[k])
                } by {
                    lemma_branch_at(res, d as nat, o, k);
                    if nodeg matches TreeBody::Branch(_) {
                        lemma_branch_at(nodeg, d as nat, o, k);
                    }
                    if in_cube(k, o, d as nat) {
                        lemma_octant(k, o, d as nat);
                    }
                };
            }
        }
        res
    }
}

impl<T> VoxelTree<T> {
    /// Stores `v` as the leaf payload of the unit cell at `c`, creating any
    /// missing interior nodes on the way down. Rejects coordinates outside
    /// the current span: the caller must grow the tree first.
    pub fn set_leaf(&mut self, c: Coord, v: T) -> (res: Result<(), TreeError>)
        requires
            old(self).wf(),
        ensures
            final(self).wf(),
            final(self).size_spec() == old(self).size_spec(),
            match res {
                Ok(()) => old(self).in_bounds(c@) && final(self).as_map() == old(
                    self,
                ).as_map().insert(c@, v),
                Err(e) => {
                    &&& e == TreeError::OutOfBounds
                    &&& !old(self).in_bounds(c@)
                    &&& *final(self) == *old(self)
                },
            },
    {
        if !self.contains_bounds(c) {
            return Err(TreeError::OutOfBounds);
        }
        proof {
            lemma_pow2_unfold(self.size as nat);
            lemma_pow2_strictly_increases((self.size - 1) as nat, MAX_SIZE as nat);
            lemma_pow2_pos((self.size - 1) as nat);
            if self.size < MAX_SIZE {
                lemma_pow2_strictly_increases(self.size as nat, MAX_SIZE as nat);
            }
        }
        let half = pow2_isize(self.size - 1);
        let mut root = TreeBody::Empty;
        core::mem::swap(&mut self.contents, &mut root);
        let root = body_set(root, self.size, -half, -half, -half, c, v);
        self.contents = root;
        Ok(())
    }

    /// Reads the leaf payload of the unit cell at `c`, if one is stored.
    /// Coordinates outside the current span hold nothing.
    pub fn get_leaf(&self, c: Coord) -> (res: Option<&T>)
        requires
            self.wf(),
        ensures
            match res {
                Some(t) => self.as_map().dom().contains(c@) && *t == self.as_map()[c@],
                None => !self.as_map().dom().contains(c@),
            },
    {
        if !self.contains_bounds(c) {
            proof {
                lemma_as_map_in_cube(self.contents, self.size as nat, self.origin_spec());
            }
            return None;
        }
        proof {
            lemma_pow2_unfold(self.size as nat);
            lemma_pow2_strictly_increases((self.size - 1) as nat, MAX_SIZE as nat);
            lemma_pow2_pos((self.size - 1) as nat);
            if self.size < MAX_SIZE {
                lemma_pow2_strictly_increases(self.size as nat, MAX_SIZE as nat);
            }
        }
        let half = pow2_isize(self.size - 1);
        body_get(&self.contents, self.size, -half, -half, -half, c)
    }

    /// Empties the unit cell at `c`. Clearing a cell that holds nothing
    /// (or lies outside the span) leaves the tree unchanged.
    pub fn clear_leaf(&mut self, c: Coord)
        requires
            old(self).wf(),
        ensures
            final(self).wf(),
            final(self).size_spec() == old(self).size_spec(),
            final(self).as_map() == old(self).as_map().remove(c@),
    {
        if !self.contains_bounds(c) {
            proof {
                lemma_as_map_in_cube(self.contents, self.size as nat, self.origin_spec());
                assert(self.as_map() =~= self.as_map().remove(c@));
            }
            return ;
        }
        proof {
            lemma_pow2_unfold(self.size as nat);
            lemma_pow2_strictly_increases((self.size - 1) as nat, MAX_SIZE as nat);
            lemma_pow2_pos((self.size - 1) as nat);
            if self.size < MAX_SIZE {
                lemma_pow2_strictly_increases(self.size as nat, MAX_SIZE as nat);
            }
        }
        let half = pow2_isize(self.size - 1);
        let mut root = TreeBody::Empty;
        core::mem::swap(&mut self.contents, &mut root);
        let root = body_clear(root, self.size, -half, -half, -half, c);
        self.contents = root;
    }

    /// Re-roots the tree one level up: the size grows by one and every cell
    /// keeps the payload it had, so all previously valid coordinates stay
    /// valid and unchanged.
    pub fn grow(&mut self)
        requires
            old(self).wf(),
            old(self).size_spec() < MAX_SIZE,
        ensures
            final(self).wf(),
            final(self).size_spec() == old(self).size_spec() + 1,
            final(self).as_map() == old(self).as_map(),
            forall|k: (int, int, int)| old(self).in_bounds(k) ==> final(self).in_bounds(k),
    {
        let s = self.size;
        let ghost root0 = self.contents;
        let ghost sn = s as nat;
        let ghost oo = self.origin_spec();
        let ghost no = (-(pow2(sn) as int), -(pow2(sn) as int), -(pow2(sn) as int));
        proof {
            lemma_pow2_unfold((sn + 1) as nat);
            lemma_pow2_unfold(sn);
            lemma_pow2_pos((sn - 1) as nat);
        }
        let mut root = TreeBody::Empty;
        core::mem::swap(&mut self.contents, &mut root);
        match root {
            TreeBody::Empty => {
                self.size = s + 1;
                proof {
                    assert(final(self).as_map() =~= old(self).as_map());
                }
            },
            TreeBody::Leaf(_) => {
                proof {
                    assert(false);
                }
                self.size = s + 1;
            },
            TreeBody::Branch(mut cs) => {
                let ghost cs0 = cs@;
                let mut new_cs: Vec<TreeBody<T>> = Vec::new();
                let mut i: usize = 0;
                while i < 8
                    invariant
                        i <= 8,
                        cs0.len() == 8,
                        cs@ =~= cs0.subrange(i as int, 8),
                        new_cs@.len() == i as int,
                        1 <= s < MAX_SIZE,
                        forall|j: int| 0 <= j < 8 ==> (#[trigger] cs0[j]).wf((s - 1) as nat),
                        forall|j: int|
                            0 <= j < i as int ==> #[trigger] grown_child_ok(
                                cs0[j],
                                new_cs@[j],
                                j,
                            ),
                        forall|j: int|
                            0 <= j < i as int ==> (#[trigger] new_cs@[j]).wf(s as nat),
                    decreases 8 - i,
                {
                    let child = cs.remove(0);
                    proof {
                        assert(child == cs0[i as int]);
                        assert(cs@ =~= cs0.subrange(i as int + 1, 8));
                    }
                    match child {
                        TreeBody::Empty => {
                            new_cs.push(TreeBody::Empty);
                        },
                        other => {
                            let mut w = empty_children();
                            let _placeholder = replace_child(&mut w, 7 - i, other);
                            let wrapped = TreeBody::Branch(w);
                            proof {
                                assert forall|l: int| 0 <= l < 8 implies (#[trigger] w@[l]).wf(
                                    (s - 1) as nat,
                                ) by {
                                    if l != 7 - i as int {
                                        assert(w@[l] matches TreeBody::Empty);
                                    } else {
                                        assert(w@[l] == cs0[i as int]);
                                    }
                                };
                                assert(wrapped.wf(s as nat));
                                assert(grown_child_ok(cs0[i as int], wrapped, i as int));
                            }
                            new_cs.push(wrapped);
                        },
                    }
                    i = i + 1;
                }
                let new_root = TreeBody::Branch(new_cs);
                self.contents = new_root;
                self.size = s + 1;
                proof {
                    assert(self.contents.wf((sn + 1) as nat));
                    lemma_grown_map(root0, self.contents, sn, oo, no);
                    assert(final(self).as_map() == self.contents.as_map((sn + 1) as nat, no));
                    assert(old(self).as_map() == root0.as_map(sn, oo));
                }
            },
        }
    }
}

/// Shape of one re-rooted child after a grow step: an empty octant stays
/// empty, a non-empty one is pushed down one level, standing at the slot
/// nearest the origin (the bitwise complement of its old octant code).
spec fn grown_child_ok<T>(oldc: TreeBody<T>, newc: TreeBody<T>, j: int) -> bool {
    match oldc {
        TreeBody::Empty => newc matches TreeBody::Empty,
        _ => {
            &&& newc matches TreeBody::Branch(_)
            &&& children_of(newc).len() == 8
            &&& children_of(newc)[7 - j] == oldc
            &&& forall|l: int|
                0 <= l < 8 && l != 7 - j ==> #[trigger] children_of(newc)[l] matches
                    TreeBody::Empty
        },
    }
}

/// A grow step keeps the tree's map: the new root at `no` (one level up)
/// holds exactly what the old root held at `oo`.
proof fn lemma_grown_map<T>(
    root0: TreeBody<T>,
    root1: TreeBody<T>,
    sn: nat,
    oo: (int, int, int),
    no: (int, int, int),
)
    requires
        1 <= sn,
        root0.wf(sn),
        root1.wf(sn + 1),
        root0 matches TreeBody::Branch(_),
        root1 matches TreeBody::Branch(_),
        children_of(root0).len() == 8,
        children_of(root1).len() == 8,
        oo == (-(pow2((sn - 1) as nat) as int), -(pow2((sn - 1) as nat) as int), -(pow2((sn - 1) as nat) as int)),
        no == (-(pow2(sn) as int), -(pow2(sn) as int), -(pow2(sn) as int)),
        forall|j: int|
            0 <= j < 8 ==> #[trigger] grown_child_ok(children_of(root0)[j], children_of(root1)[j], j),
    ensures
        root1.as_map(sn + 1, no) == root0.as_map(sn, oo),
{
    lemma_pow2_unfold((sn + 1) as nat);
    lemma_pow2_unfold(sn);
    lemma_pow2_pos((sn - 1) as nat);
    let cs0 = children_of(root0);
    let cs1 = children_of(root1);
    assert(root1.as_map(sn + 1, no) =~= root0.as_map(sn, oo)) by {
        assert forall|k: (int, int, int)|
            #![trigger root1.as_map(sn + 1, no).dom().contains(k)]
            #![trigger root0.as_map(sn, oo).dom().contains(k)]
            true implies {
            &&& root1.as_map(sn + 1, no).dom().contains(k) == root0.as_map(sn, oo).dom().contains(
                k,
            )
            &&& (root0.as_map(sn, oo).dom().contains(k) ==> root1.as_map(sn + 1, no)[k]
                == root0.as_map(sn, oo)[k])
        } by {
            lemma_branch_at(root1, sn + 1, no, k);
            lemma_branch_at(root0, sn, oo, k);
            if in_cube(k, no, sn + 1) {
                lemma_octant(k, no, sn + 1);
                let i = octant_of(k, no, sn + 1);
                assert(grown_child_ok(cs0[i], cs1[i], i));
                let co = octant_origin(no, sn + 1, i);
                match cs1[i] {
                    TreeBody::Empty => {
                        assert(cs0[i] matches TreeBody::Empty);
                    },
                    TreeBody::Leaf(_) => {},
                    TreeBody::Branch(_) => {
                        lemma_branch_at(cs1[i], sn, co, k);
                        lemma_as_map_in_cube(cs0[i], (sn - 1) as nat, octant_origin(oo, sn, i));
                        if in_cube(k, co, sn) {
                            lemma_octant(k, co, sn);
                            assert(octant_origin(co, sn, 7 - i) == octant_origin(oo, sn, i));
                            if octant_of(k, co, sn) != 7 - i {
                                assert(children_of(cs1[i])[octant_of(k, co, sn)] matches
                                    TreeBody::Empty);
                            }
                        }
                    },
                }
                if in_cube(k, oo, sn) {
                    lemma_octant(k, oo, sn);
                    assert(octant_of(k, oo, sn) == i);
                }
            } else {
                assert(!in_cube(k, oo, sn));
            }
        };
    }
}

/// Empties the unit cell at `c` of a node standing at depth `d` with corner
/// `(ox, oy, oz)`. Never creates nodes.
#[verifier::rlimit(50)]
#[verifier::spinoff_prover]
fn body_clear<T>(node: TreeBody<T>, d: u32, ox: isize, oy: isize, oz: isize, c: Coord) -> (res:
    TreeBody<T>)
    requires
        node.wf(d as nat),
        corner_ok(ox as int, oy as int, oz as int, d as nat),
        in_cube(c@, (ox as int, oy as int, oz as int), d as nat),
    ensures
        res.wf(d as nat),
        res.as_map(d as nat, (ox as int, oy as int, oz as int)) == node.as_map(
            d as nat,
            (ox as int, oy as int, oz as int),
        ).remove(c@),
    decreases d,
{
    let ghost o = (ox as int, oy as int, oz as int);
    let ghost m0 = node.as_map(d as nat, o);
    proof {
        lemma2_to64();
    }
    match node {
        TreeBody::Empty => {
            proof {
                assert(m0 =~= m0.remove(c@));
            }
            TreeBody::Empty
        },
        TreeBody::Leaf(_) => {
            proof {
                assert(c@ == o);
                assert(TreeBody::<T>::Empty.as_map(d as nat, o) =~= m0.remove(c@));
            }
            TreeBody::Empty
        },
        TreeBody::Branch(mut cs) => {
            proof {
                lemma_pow2_strictly_increases((d - 1) as nat, d as nat);
                lemma_pow2_strictly_increases(d as nat, (MAX_SIZE + 1) as nat);
                lemma_pow2_unfold((MAX_SIZE + 1) as nat);
            }
            let h = pow2_isize(d - 1);
            let (bx, cx) = if c.x >= ox + h {
                (4usize, ox + h)
            } else {
                (0usize, ox)
            };
            let (by, cy) = if c.y >= oy + h {
                (2usize, oy + h)
            } else {
                (0usize, oy)
            };
            let (bz, cz) = if c.z >= oz + h {
                (1usize, oz + h)
            } else {
                (0usize, oz)
            };
            let i = bx + by + bz;
            let ghost nodeg = TreeBody::Branch(cs);
            let ghost sub = (d - 1) as nat;
            let ghost cs0 = cs@;
            proof {
                lemma_octant(c@, o, d as nat);
                assert(i == octant_of(c@, o, d as nat));
                assert((cx as int, cy as int, cz as int) == octant_origin(o, d as nat, i as int));
                assert(forall|j: int| 0 <= j < 8 ==> (#[trigger] cs0[j]).wf(sub));
            }
            let child = replace_child(&mut cs, i, TreeBody::Empty);
            let child = body_clear(child, d - 1, cx, cy, cz, c);
            let _placeholder = replace_child(&mut cs, i, child);
            proof {
                assert(cs@ =~= cs0.update(i as int, child));
            }
            let res = TreeBody::Branch(cs);
            proof {
                assert(res.wf(d as nat));
                let target = m0.remove(c@);
                assert(res.as_map(d as nat, o) =~= target) by {
                    assert forall|k: (int, int, int)|
                        #![trigger res.as_map(d as nat, o).dom().contains(k)]
                        #![trigger target.dom().contains(k)]
                        true implies {
                        &&& res.as_map(d as nat, o).dom().contains(k) == target.dom().contains(k)
                        &&& (res.as_map(d as nat, o).dom().contains(k) ==> res.as_map(
                            d as nat,
                            o,
                        )[k] == target[k])
                    } by {
                        lemma_branch_at(res, d as nat, o, k);
                        lemma_branch_at(nodeg, d as nat, o, k);
                        if in_cube(k, o, d as nat) {
                            lemma_octant(k, o, d as nat);
                        }
                    };
                }
            }
            res
        },
    }
}

/// Reads the unit cell at `c` of a node standing at depth `d` with corner
/// `(ox, oy, oz)`.
fn body_get<'a, T>(node: &'a TreeBody<T>, d: u32, ox: isize, oy: isize, oz: isize, c: Coord) -> (res:
    Option<&'a T>)
    requires
        node.wf(d as nat),
        corner_ok(ox as int, oy as int, oz as int, d as nat),
        in_cube(c@, (ox as int, oy as int, oz as int), d as nat),
    ensures
        match res {
            Some(t) => node.as_map(d as nat, (ox as int, oy as int, oz as int)).dom().contains(c@)
                && *t == node.as_map(d as nat, (ox as int, oy as int, oz as int))[c@],
            None => !node.as_map(d as nat, (ox as int, oy as int, oz as int)).dom().contains(c@),
        },
    decreases d,
{
    let ghost o = (ox as int, oy as int, oz as int);
    proof {
        lemma2_to64();
    }
    match node {
        TreeBody::Empty => None,
        TreeBody::Leaf(t) => {
            proof {
                assert(c@ == o);
            }
            Some(t)
        },
        TreeBody::Branch(cs) => {
            proof {
                lemma_pow2_strictly_increases((d - 1) as nat, d as nat);
            }
            let h = pow2_isize(d - 1);
            let (bx, cx) = if c.x >= ox + h {
                (4usize, ox + h)
            } else {
                (0usize, ox)
            };
            let (by, cy) = if c.y >= oy + h {
                (2usize, oy + h)
            } else {
                (0usize, oy)
            };
            let (bz, cz) = if c.z >= oz + h {
                (1usize, oz + h)
            } else {
                (0usize, oz)
            };
            let i = bx + by + bz;
            proof {
                lemma_octant(c@, o, d as nat);
                assert(i == octant_of(c@, o, d as nat));
                assert((cx as int, cy as int, cz as int) == octant_origin(o, d as nat, i as int));
                lemma_branch_at(*node, d as nat, o, c@);
            }
            let child = &cs[i];
            body_get(child, d - 1, cx, cy, cz, c)
        },
    }
}

/// `2^e` as an `isize`.
pub fn pow2_isize(e: u32) -> (r: isize)
    requires
        e <= MAX_SIZE,
    ensures
        r == pow2(e as nat),
{
    let mut r: isize = 1;
    let mut i: u32 = 0;
    proof {
        lemma2_to64();
    }
    while i < e
        invariant
            i <= e,
            e <= MAX_SIZE,
            r == pow2(i as nat),
        decreases e - i,
    {
        proof {
            lemma_pow2_unfold((i + 1) as nat);
            lemma_pow2_strictly_increases(i as nat, MAX_SIZE as nat);
            lemma2_to64();
        }
        r = r * 2;
        i = i + 1;
    }
    r
}

/// What a well-formed node holds is a finite map.
pub proof fn lemma_as_map_finite<T>(node: TreeBody<T>, d: nat, o: (int, int, int))
    requires
        node.wf(d),
    ensures
        node.as_map(d, o).dom().finite(),
    decreases d,
{
    broadcast use vstd::map_lib::lemma_union_dom;
    broadcast use vstd::set::axiom_set_union_finite;

    match node {
        TreeBody::Empty => {},
        TreeBody::Leaf(_) => {},
        TreeBody::Branch(cs) => {
            let sub = (d - 1) as nat;
            lemma_as_map_finite(cs@[0], sub, octant_origin(o, d, 0));
            lemma_as_map_finite(cs@[1], sub, octant_origin(o, d, 1));
            lemma_as_map_finite(cs@[2], sub, octant_origin(o, d, 2));
            lemma_as_map_finite(cs@[3], sub, octant_origin(o, d, 3));
            lemma_as_map_finite(cs@[4], sub, octant_origin(o, d, 4));
            lemma_as_map_finite(cs@[5], sub, octant_origin(o, d, 5));
            lemma_as_map_finite(cs@[6], sub, octant_origin(o, d, 6));
            lemma_as_map_finite(cs@[7], sub, octant_origin(o, d, 7));
        },
    }
}

/// A well-formed tree's size lies between 1 and `MAX_SIZE`.
pub proof fn lemma_wf_size<T>(tree: VoxelTree<T>)
    requires
        tree.wf(),
    ensures
        1 <= tree.size_spec() <= MAX_SIZE,
{
}

/// What a well-formed tree holds lies within its span.
pub proof fn lemma_tree_map_in_bounds<T>(tree: VoxelTree<T>)
    requires
        tree.wf(),
    ensures
        forall|k: (int, int, int)| #[trigger] tree.as_map().dom().contains(k) ==> tree.in_bounds(k),
{
    lemma_as_map_in_cube(tree.contents, tree.size_spec() as nat, tree.origin_spec());
}

/// What a well-formed tree holds is a finite map.
pub proof fn lemma_tree_map_finite<T>(tree: VoxelTree<T>)
    requires
        tree.wf(),
    ensures
        tree.as_map().dom().finite(),
{
    lemma_as_map_finite(tree.contents, tree.size_spec() as nat, tree.origin_spec());
}

/// The scan order of the depth-first walk over a cube of side `2^d` at
/// corner `o`: cells of a lower octant come before cells of a higher one,
/// and cells of the same octant keep their order one level down. On
/// distinct cells of the cube this order is total and strict.
pub open spec fn scan_le(a: (int, int, int), b: (int, int, int), o: (int, int, int), d: nat) -> bool
    decreases d,
{
    if d == 0 {
        true
    } else {
        let ia = octant_of(a, o, d);
        let ib = octant_of(b, o, d);
        if ia != ib {
            ia < ib
        } else {
            scan_le(a, b, octant_origin(o, d, ia), (d - 1) as nat)
        }
    }
}

/// Takes some remaining leaf out of a node, by a fixed depth-first scan that
/// fully exhausts one octant (in octant-code order) before the next.
#[verifier::rlimit(50)]
#[verifier::spinoff_prover]
fn body_take<T>(node: TreeBody<T>, d: u32, ox: isize, oy: isize, oz: isize) -> (res: (
    TreeBody<T>,
    Option<(Coord, T)>,
))
    requires
        node.wf(d as nat),
        corner_ok(ox as int, oy as int, oz as int, d as nat),
    ensures
        res.0.wf(d as nat),
        match res.1 {
            Some(p) => {
                &&& in_cube(p.0@, (ox as int, oy as int, oz as int), d as nat)
                &&& node.as_map(d as nat, (ox as int, oy as int, oz as int)).dom().contains(p.0@)
                &&& node.as_map(d as nat, (ox as int, oy as int, oz as int))[p.0@] == p.1
                &&& res.0.as_map(d as nat, (ox as int, oy as int, oz as int)) == node.as_map(
                    d as nat,
                    (ox as int, oy as int, oz as int),
                ).remove(p.0@)
                &&& forall|k: (int, int, int)|
                    #[trigger] node.as_map(d as nat, (ox as int, oy as int, oz as int)).dom().contains(
                        k,
                    ) ==> scan_le(p.0@, k, (ox as int, oy as int, oz as int), d as nat)
            },
            None => {
                &&& node.as_map(d as nat, (ox as int, oy as int, oz as int))
                    == Map::<(int, int, int), T>::empty()
                &&& res.0.as_map(d as nat, (ox as int, oy as int, oz as int))
                    == Map::<(int, int, int), T>::empty()
            },
        },
    decreases d,
{
    let ghost o = (ox as int, oy as int, oz as int);
    let ghost m0 = node.as_map(d as nat, o);
    proof {
        lemma2_to64();
    }
    match node {
        TreeBody::Empty => (TreeBody::Empty, None),
        TreeBody::Leaf(t) => {
            let c = Coord { x: ox, y: oy, z: oz };
            proof {
                assert(TreeBody::<T>::Empty.as_map(d as nat, o) =~= m0.remove(c@));
                lemma_pow2_pos(d as nat);
            }
            (TreeBody::Empty, Some((c, t)))
        },
        TreeBody::Branch(mut cs) => {
            proof {
                lemma_pow2_strictly_increases((d - 1) as nat, d as nat);
                lemma_pow2_strictly_increases(d as nat, (MAX_SIZE + 1) as nat);
                lemma_pow2_unfold((MAX_SIZE + 1) as nat);
            }
            let h = pow2_isize(d - 1);
            let ghost nodeg = TreeBody::Branch(cs);
            let ghost cs0 = cs@;
            let ghost sub = (d - 1) as nat;
            proof {
                assert(forall|j: int| 0 <= j < 8 ==> (#[trigger] cs0[j]).wf(sub));
            }
            let mut i: usize = 0;
            while i < 8
                invariant
                    i <= 8,
                    cs@.len() == 8,
                    cs0.len() == 8,
                    d >= 1,
                    node == nodeg,
                    nodeg matches TreeBody::Branch(_),
                    nodeg.wf(d as nat),
                    o == (ox as int, oy as int, oz as int),
                    m0 == nodeg.as_map(d as nat, o),
                    sub == (d - 1) as nat,
                    h == pow2(sub),
                    corner_ok(ox as int, oy as int, oz as int, d as nat),
                    children_of(nodeg) == cs0,
                    forall|j: int| 0 <= j < 8 ==> (#[trigger] cs@[j]).wf(sub),
                    forall|j: int|
                        0 <= j < i as int ==> (#[trigger] cs@[j]).as_map(
                            sub,
                            octant_origin(o, d as nat, j),
                        ) == Map::<(int, int, int), T>::empty(),
                    forall|j: int|
                        0 <= j < i as int ==> (#[trigger] cs0[j]).as_map(
                            sub,
                            octant_origin(o, d as nat, j),
                        ) == Map::<(int, int, int), T>::empty(),
                    forall|j: int| i as int <= j < 8 ==> #[trigger] cs@[j] == cs0[j],
                    decreases 8 - i,
            {
                proof {
                    lemma2_to64();
                    lemma_pow2_strictly_increases((d - 1) as nat, d as nat);
                    lemma_pow2_strictly_increases(d as nat, (MAX_SIZE + 1) as nat);
                    lemma_pow2_unfold((MAX_SIZE + 1) as nat);
                }
                let cox = if i >= 4 {
                    ox + h
                } else {
                    ox
                };
                let coy = if i % 4 >= 2 {
                    oy + h
                } else {
                    oy
                };
                let coz = if i % 2 == 1 {
                    oz + h
                } else {
                    oz
                };
                proof {
                    assert((cox as int, coy as int, coz as int) == octant_origin(
                        o,
                        d as nat,
                        i as int,
                    ));
                    lemma_pow2_unfold(d as nat);
                }
                let ghost cs_before = cs@;
                let child = replace_child(&mut cs, i, TreeBody::Empty);
                let (child2, found) = body_take(child, d - 1, cox, coy, coz);
                let _placeholder = replace_child(&mut cs, i, child2);
                proof {
                    assert(cs@ =~= cs_before.update(i as int, child2));
                }
                match found {
                    Some(p) => {
                        let res = (TreeBody::Branch(cs), Some(p));
                        proof {
                            let c = p.0@;
                            let resnode = res.0;
                            assert(resnode.wf(d as nat));
                            lemma_octant_sub(o, d as nat);
                            assert(in_cube(c, o, d as nat));
                            lemma_octant(c, o, d as nat);
                            assert(octant_of(c, o, d as nat) == i as int);
                            lemma_branch_at(nodeg, d as nat, o, c);
                            assert(m0.dom().contains(c) && m0[c] == p.1);
                            let target = m0.remove(c);
                            assert(resnode.as_map(d as nat, o) =~= target) by {
                                assert forall|k: (int, int, int)|
                                    #![trigger resnode.as_map(d as nat, o).dom().contains(k)]
                                    #![trigger target.dom().contains(k)]
                                    true implies {
                                    &&& resnode.as_map(d as nat, o).dom().contains(k)
                                        == target.dom().contains(k)
                                    &&& (resnode.as_map(d as nat, o).dom().contains(k)
                                        ==> resnode.as_map(d as nat, o)[k] == target[k])
                                } by {
                                    lemma_branch_at(resnode, d as nat, o, k);
                                    lemma_branch_at(nodeg, d as nat, o, k);
                                    if in_cube(k, o, d as nat) {
                                        lemma_octant(k, o, d as nat);
                                    }
                                };
                            }
                            // everything still held comes later in the scan:
                            // lower octants are already exhausted, and within
                            // this octant the child made the same promise
                            assert forall|k: (int, int, int)|
                                #[trigger] m0.dom().contains(k) implies scan_le(
                                c,
                                k,
                                o,
                                d as nat,
                            ) by {
                                lemma_as_map_in_cube(nodeg, d as nat, o);
                                lemma_branch_at(nodeg, d as nat, o, k);
                                lemma_octant(k, o, d as nat);
                                let j = octant_of(k, o, d as nat);
                                if j < i as int {
                                    assert(cs0[j].as_map(sub, octant_origin(o, d as nat, j))
                                        == Map::<(int, int, int), T>::empty());
                                    assert(false);
                                } else if j == i as int {
                                    assert(cs0[i as int].as_map(
                                        sub,
                                        octant_origin(o, d as nat, i as int),
                                    ).dom().contains(k));
                                    assert(scan_le(
                                        c,
                                        k,
                                        octant_origin(o, d as nat, i as int),
                                        sub,
                                    ));
                                }
                            };
                        }
                        return res;
                    },
                    None => {
                        proof {
                            assert(cs@[i as int] == child2);
                            assert(forall|j: int|
                                (i as int) < j < 8 ==> (#[trigger] cs@[j]) == cs0[j]);
                        }
                    },
                }
                i = i + 1;
            }
            let res = (TreeBody::Branch(cs), None::<(Coord, T)>);
            proof {
                let resnode = res.0;
                assert(resnode.wf(d as nat));
                assert(m0 =~= Map::<(int, int, int), T>::empty()) by {
                    assert forall|k: (int, int, int)|
                        true implies !(#[trigger] m0.dom().contains(k)) by {
                        lemma_branch_at(nodeg, d as nat, o, k);
                        if in_cube(k, o, d as nat) {
                            lemma_octant(k, o, d as nat);
                        }
                    };
                }
                assert(resnode.as_map(d as nat, o) =~= Map::<(int, int, int), T>::empty()) by {
                    assert forall|k: (int, int, int)|
                        true implies !(#[trigger] resnode.as_map(d as nat, o).dom().contains(
                        k,
                    )) by {
                        lemma_branch_at(resnode, d as nat, o, k);
                        if in_cube(k, o, d as nat) {
                            lemma_octant(k, o, d as nat);
                        }
                    };
                }
            }
            res
        },
    }
}

impl<T> VoxelTree<T> {
    /// Takes some remaining leaf out of the tree, returning its coordinate
    /// and payload, by a fixed depth-first scan that fully exhausts one
    /// octant (in octant-code order) before the next. Returns `None` exactly
    /// when no leaves remain.
    pub fn take_any_leaf(&mut self) -> (res: Option<(Coord, T)>)
        requires
            old(self).wf(),
        ensures
            final(self).wf(),
            final(self).size_spec() == old(self).size_spec(),
            match res {
                Some(p) => {
                    &&& old(self).in_bounds(p.0@)
                    &&& old(self).as_map().dom().contains(p.0@)
                    &&& old(self).as_map()[p.0@] == p.1
                    &&& final(self).as_map() == old(self).as_map().remove(p.0@)
                    &&& forall|k: (int, int, int)| #[trigger]
                        old(self).as_map().dom().contains(k) ==> scan_le(
                            p.0@,
                            k,
                            old(self).origin_spec(),
                            old(self).size_spec() as nat,
                        )
                },
                None => {
                    &&& old(self).as_map() == Map::<(int, int, int), T>::empty()
                    &&& final(self).as_map() == Map::<(int, int, int), T>::empty()
                },
            },
    {
        proof {
            lemma_pow2_unfold(self.size as nat);
            lemma_pow2_strictly_increases((self.size - 1) as nat, MAX_SIZE as nat);
            lemma_pow2_pos((self.size - 1) as nat);
            if self.size < MAX_SIZE {
                lemma_pow2_strictly_increases(self.size as nat, MAX_SIZE as nat);
            }
        }
        let half = pow2_isize(self.size - 1);
        let mut root = TreeBody::Empty;
        core::mem::swap(&mut self.contents, &mut root);
        let (root, found) = body_take(root, self.size, -half, -half, -half);
        self.contents = root;
        found
    }

    /// Grows the tree until it spans both `min` and `max`. Every cell keeps
    /// the payload it had.
    pub fn grow_to_fit(&mut self, min: Coord, max: Coord)
        requires
            old(self).wf(),
            in_cube(
                min@,
                (
                    -(pow2((MAX_SIZE - 1) as nat) as int),
                    -(pow2((MAX_SIZE - 1) as nat) as int),
                    -(pow2((MAX_SIZE - 1) as nat) as int),
                ),
                MAX_SIZE as nat,
            ),
            in_cube(
                max@,
                (
                    -(pow2((MAX_SIZE - 1) as nat) as int),
                    -(pow2((MAX_SIZE - 1) as nat) as int),
                    -(pow2((MAX_SIZE - 1) as nat) as int),
                ),
                MAX_SIZE as nat,
            ),
        ensures
            final(self).wf(),
            final(self).size_spec() >= old(self).size_spec(),
            final(self).as_map() == old(self).as_map(),
            final(self).in_bounds(min@),
            final(self).in_bounds(max@),
    {
        loop
            invariant
                self.wf(),
                self.size_spec() >= old(self).size_spec(),
                self.as_map() == old(self).as_map(),
                in_cube(
                    min@,
                    (
                        -(pow2((MAX_SIZE - 1) as nat) as int),
                        -(pow2((MAX_SIZE - 1) as nat) as int),
                        -(pow2((MAX_SIZE - 1) as nat) as int),
                    ),
                    MAX_SIZE as nat,
                ),
                in_cube(
                    max@,
                    (
                        -(pow2((MAX_SIZE - 1) as nat) as int),
                        -(pow2((MAX_SIZE - 1) as nat) as int),
                        -(pow2((MAX_SIZE - 1) as nat) as int),
                    ),
                    MAX_SIZE as nat,
                ),
            decreases MAX_SIZE - self.size_spec(),
        {
            if self.contains_bounds(min) && self.contains_bounds(max) {
                return ;
            }
            proof {
                if self.size_spec() == MAX_SIZE {
                    assert(self.in_bounds(min@) && self.in_bounds(max@));
                    assert(false);
                }
            }
            self.grow();
        }
    }
}

} // verus!
