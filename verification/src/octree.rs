//! The spatial index: an octree over the current vertex positions.
//!
//! Each node covers a cube given by a reference corner and a half-extent.
//! While the tree is built, the `x`/`y`/`z` fields of a node accumulate the
//! raw coordinate sums of every point inserted below it; a post-build pass
//! turns the sums into true centers of mass and prunes empty octants. A ghost
//! sequence records exactly which points each node aggregates, so the count
//! and center-of-mass guarantees are stated over the inserted points
//! themselves.

use crate::math::{lemma_tdiv_mag, tdiv, tdiv_i128};
use crate::model::{
    all_in_box, lemma_sum_bounds, sum_px, sum_py, sum_pz, GPoint, SimVertex, MAX_VERTICES,
    POS_LIMIT,
};
use vstd::arithmetic::div_mod::lemma_multiply_divide_le;
use vstd::prelude::*;

verus! {

/// Half-extents below this threshold are not subdivided further: a node this
/// small becomes a bucket that keeps absorbing points, which caps the
/// recursion depth when points coincide.
pub const MIN_HALF_EXTENT: i64 = 1;

/// One octree node: cube reference corner, half-extent, aggregated
/// coordinates, point count, sole occupant (when `number == 1`), and the
/// child octants (all eight while building, the non-empty ones afterwards).
pub struct OctreeNode {
    pub cx: i64,
    pub cy: i64,
    pub cz: i64,
    pub children: Vec<OctreeNode>,
    pub x: i64,
    pub y: i64,
    pub z: i64,
    pub number: usize,
    pub size: i64,
    pub node: usize,
    pub pts: Ghost<Seq<GPoint>>,
}

/// Sum of the point counts of a sequence of nodes.
pub open spec fn sum_numbers(s: Seq<OctreeNode>) -> int
    decreases s.len(),
{
    if s.len() == 0 {
        0
    } else {
        sum_numbers(s.drop_last()) + s.last().number
    }
}

/// The subsequence of points that fall into octant `k` of the cube with
/// reference corner `(cx, cy, cz)`, in their original order.
pub open spec fn octant_pts(pts: Seq<GPoint>, cx: int, cy: int, cz: int, k: int) -> Seq<GPoint>
    decreases pts.len(),
{
    if pts.len() == 0 {
        Seq::empty()
    } else {
        let rest = octant_pts(pts.drop_last(), cx, cy, cz, k);
        if Octree::octant_of(pts.last().x, pts.last().y, pts.last().z, cx, cy, cz) == k {
            rest.push(pts.last())
        } else {
            rest
        }
    }
}

/// Appending a point extends exactly the octant it falls into.
pub proof fn lemma_octant_pts_push(pts: Seq<GPoint>, cx: int, cy: int, cz: int, p: GPoint)
    ensures
        forall|k: int|
            #[trigger] octant_pts(pts.push(p), cx, cy, cz, k) == (if Octree::octant_of(
                p.x,
                p.y,
                p.z,
                cx,
                cy,
                cz,
            ) == k {
                octant_pts(pts, cx, cy, cz, k).push(p)
            } else {
                octant_pts(pts, cx, cy, cz, k)
            }),
{
    assert(pts.push(p).drop_last() =~= pts);
    assert(pts.push(p).last() == p);
}

/// A single point sits in exactly its own octant.
pub proof fn lemma_octant_pts_single(pts: Seq<GPoint>, cx: int, cy: int, cz: int)
    requires
        pts.len() == 1,
    ensures
        forall|k: int|
            #[trigger] octant_pts(pts, cx, cy, cz, k) == (if Octree::octant_of(
                pts[0].x,
                pts[0].y,
                pts[0].z,
                cx,
                cy,
                cz,
            ) == k {
                Seq::<GPoint>::empty().push(pts[0])
            } else {
                Seq::<GPoint>::empty()
            }),
{
    assert(pts.drop_last() =~= Seq::<GPoint>::empty());
    assert(pts.last() == pts[0]);
    assert forall|k: int|
        #[trigger] octant_pts(pts, cx, cy, cz, k) == (if Octree::octant_of(
            pts[0].x,
            pts[0].y,
            pts[0].z,
            cx,
            cy,
            cz,
        ) == k {
            Seq::<GPoint>::empty().push(pts[0])
        } else {
            Seq::<GPoint>::empty()
        }) by {
        assert(octant_pts(pts.drop_last(), cx, cy, cz, k) == Seq::<GPoint>::empty());
    }
}

/// The eight octants partition a point sequence: no point falls in two of
/// them, and every point falls in one, so their counts sum to the whole.
/// With a finalized node's children pairwise standing for distinct octants,
/// holding exactly the points of theirs, and accounting together for the
/// node's whole count, the children are exactly the non-empty octants.
pub proof fn lemma_octants_partition(pts: Seq<GPoint>, cx: int, cy: int, cz: int)
    ensures
        octant_pts(pts, cx, cy, cz, 0).len() + octant_pts(pts, cx, cy, cz, 1).len() + octant_pts(
            pts,
            cx,
            cy,
            cz,
            2,
        ).len() + octant_pts(pts, cx, cy, cz, 3).len() + octant_pts(pts, cx, cy, cz, 4).len()
            + octant_pts(pts, cx, cy, cz, 5).len() + octant_pts(pts, cx, cy, cz, 6).len()
            + octant_pts(pts, cx, cy, cz, 7).len() == pts.len(),
    decreases pts.len(),
{
    if pts.len() > 0 {
        lemma_octants_partition(pts.drop_last(), cx, cy, cz);
    }
}

/// The `x` coordinate of the reference corner of octant `k`.
pub open spec fn octant_corner_x(cx: int, h: int, k: int) -> int {
    if k < 4 {
        cx + h
    } else {
        cx - h
    }
}

/// The `y` coordinate of the reference corner of octant `k`.
pub open spec fn octant_corner_y(cy: int, h: int, k: int) -> int {
    if k % 4 < 2 {
        cy + h
    } else {
        cy - h
    }
}

/// The `z` coordinate of the reference corner of octant `k`.
pub open spec fn octant_corner_z(cz: int, h: int, k: int) -> int {
    if k % 2 == 0 {
        cz + h
    } else {
        cz - h
    }
}

/// The octant a child stands for, read back from its reference corner.
pub open spec fn child_octant(ch: OctreeNode, cx: int, cy: int, cz: int) -> int {
    (if ch.cx > cx {
        0int
    } else {
        4int
    }) + (if ch.cy > cy {
        0int
    } else {
        2int
    }) + (if ch.cz > cz {
        0int
    } else {
        1int
    })
}

impl OctreeNode {
    /// Bounds shared by the building and the finalized shape: the count
    /// matches the recorded points, every point lies in the world box, and
    /// the cube stays within twice the box even after repeated halving.
    pub open spec fn base_wf(self) -> bool {
        &&& self.number == self.pts@.len()
        &&& self.number <= MAX_VERTICES
        &&& all_in_box(self.pts@)
        &&& 0 <= self.size <= POS_LIMIT
        &&& -2 * POS_LIMIT + 2 * self.size <= self.cx <= 2 * POS_LIMIT - 2 * self.size
        &&& -2 * POS_LIMIT + 2 * self.size <= self.cy <= 2 * POS_LIMIT - 2 * self.size
        &&& -2 * POS_LIMIT + 2 * self.size <= self.cz <= 2 * POS_LIMIT - 2 * self.size
    }

    /// Well-formedness during the build: aggregates are coordinate sums, a
    /// leaf records its occupant, and a split node's eight children have
    /// half its extent and account for its whole count.
    pub open spec fn wf(self) -> bool
        decreases self,
    {
        &&& self.base_wf()
        &&& self.x == sum_px(self.pts@)
        &&& self.y == sum_py(self.pts@)
        &&& self.z == sum_pz(self.pts@)
        &&& self.children.len() == 0 || self.children.len() == 8
        &&& (self.number <= 1 ==> self.children.len() == 0)
        &&& (self.number >= 2 && self.size >= 2 ==> self.children.len() == 8)
        &&& (self.number == 1 ==> self.node as int == self.pts@[0].idx)
        &&& (self.children.len() == 8 ==> {
            &&& self.number >= 2
            &&& 2 <= self.size
            &&& sum_numbers(self.children@) == self.number
            &&& forall|k: int|
                0 <= k < 8 ==> (#[trigger] self.children@[k]).size == self.size / 2
            &&& forall|k: int|
                0 <= k < 8 ==> (#[trigger] self.children@[k]).cx as int == octant_corner_x(
                    self.cx as int,
                    self.size as int / 2,
                    k,
                ) && self.children@[k].cy as int == octant_corner_y(
                    self.cy as int,
                    self.size as int / 2,
                    k,
                ) && self.children@[k].cz as int == octant_corner_z(
                    self.cz as int,
                    self.size as int / 2,
                    k,
                )
            &&& forall|k: int|
                0 <= k < 8 ==> (#[trigger] self.children@[k]).pts@ == octant_pts(
                    self.pts@,
                    self.cx as int,
                    self.cy as int,
                    self.cz as int,
                    k,
                )
            &&& forall|k: int| 0 <= k < 8 ==> (#[trigger] self.children@[k]).wf()
        })
    }

    /// Well-formedness after the post-build pass: aggregates are the true
    /// centers of mass (within the world box), empty octants are gone, and
    /// the remaining children still account for the whole count.
    pub open spec fn finalized(self) -> bool
        decreases self,
    {
        &&& self.base_wf()
        &&& (self.number > 0 ==> {
            &&& self.x == tdiv(sum_px(self.pts@), self.number as int)
            &&& self.y == tdiv(sum_py(self.pts@), self.number as int)
            &&& self.z == tdiv(sum_pz(self.pts@), self.number as int)
        })
        &&& (self.number == 0 ==> self.x == 0 && self.y == 0 && self.z == 0)
        &&& -POS_LIMIT <= self.x <= POS_LIMIT
        &&& -POS_LIMIT <= self.y <= POS_LIMIT
        &&& -POS_LIMIT <= self.z <= POS_LIMIT
        &&& self.children.len() <= 8
        &&& (self.number <= 1 ==> self.children.len() == 0)
        &&& (self.number >= 2 && self.size >= 2 ==> self.children.len() > 0)
        &&& (self.number == 1 ==> self.node as int == self.pts@[0].idx)
        &&& (self.children.len() > 0 ==> {
            &&& self.number >= 2
            &&& 2 <= self.size
            &&& sum_numbers(self.children@) == self.number
            &&& forall|k: int|
                0 <= k < self.children.len() ==> (#[trigger] self.children@[k]).size == self.size
                    / 2
            &&& forall|k: int|
                0 <= k < self.children.len() ==> (#[trigger] self.children@[k]).number >= 1
            &&& forall|k: int|
                0 <= k < self.children.len() ==> (#[trigger] self.children@[k]).cx as int
                    == octant_corner_x(
                    self.cx as int,
                    self.size as int / 2,
                    child_octant(self.children@[k], self.cx as int, self.cy as int, self.cz as int),
                ) && self.children@[k].cy as int == octant_corner_y(
                    self.cy as int,
                    self.size as int / 2,
                    child_octant(self.children@[k], self.cx as int, self.cy as int, self.cz as int),
                ) && self.children@[k].cz as int == octant_corner_z(
                    self.cz as int,
                    self.size as int / 2,
                    child_octant(self.children@[k], self.cx as int, self.cy as int, self.cz as int),
                )
            &&& forall|k: int|
                0 <= k < self.children.len() ==> (#[trigger] self.children@[k]).pts@ == octant_pts(
                    self.pts@,
                    self.cx as int,
                    self.cy as int,
                    self.cz as int,
                    child_octant(self.children@[k], self.cx as int, self.cy as int, self.cz as int),
                )
            &&& forall|k1: int, k2: int|
                #![trigger self.children@[k1], self.children@[k2]]
                0 <= k1 < k2 < self.children.len() ==> child_octant(
                    self.children@[k1],
                    self.cx as int,
                    self.cy as int,
                    self.cz as int,
                ) != child_octant(
                    self.children@[k2],
                    self.cx as int,
                    self.cy as int,
                    self.cz as int,
                )
            &&& forall|k: int|
                0 <= k < self.children.len() ==> (#[trigger] self.children@[k]).finalized()
        })
    }

    /// Total number of nodes in this subtree.
    pub open spec fn node_count(self) -> int
        decreases self, 1int,
    {
        1 + count_nodes_seq(self.children@)
    }
}

/// Total number of nodes in a sequence of subtrees.
pub open spec fn count_nodes_seq(s: Seq<OctreeNode>) -> int
    decreases s, 0int,
{
    if s.len() == 0 {
        0
    } else {
        count_nodes_seq(s.drop_last()) + s.last().node_count()
    }
}

/// Node counts of sequences are non-negative.
pub proof fn lemma_count_nodes_nonneg(s: Seq<OctreeNode>)
    ensures
        count_nodes_seq(s) >= 0,
    decreases s, 0int,
{
    if s.len() > 0 {
        lemma_count_nodes_nonneg(s.drop_last());
        lemma_node_count_pos(s.last());
    }
}

/// Every subtree holds at least one node.
pub proof fn lemma_node_count_pos(node: OctreeNode)
    ensures
        node.node_count() >= 1,
    decreases node, 1int,
{
    lemma_count_nodes_nonneg(node.children@);
}

/// The node count of a sequence splits off the first subtree.
pub proof fn lemma_count_nodes_pop_front(s: Seq<OctreeNode>)
    requires
        s.len() >= 1,
    ensures
        count_nodes_seq(s) == s[0].node_count() + count_nodes_seq(s.drop_first()),
    decreases s.len(),
{
    if s.len() == 1 {
        assert(s.drop_last() =~= Seq::<OctreeNode>::empty());
        assert(s.drop_first() =~= Seq::<OctreeNode>::empty());
    } else {
        lemma_count_nodes_pop_front(s.drop_last());
        assert(s.drop_first().drop_last() =~= s.drop_last().drop_first());
        assert(s.drop_last()[0] == s[0]);
        assert(s.drop_first().last() == s.last());
    }
}

/// An upper bound on the depth a tree of the given half-extent can reach:
/// the number of times the half-extent can be halved before it falls below
/// the subdivision threshold.
pub open spec fn depth_bound(s: int) -> int
    decreases
        (if s >= 2 {
            s
        } else {
            1
        }),
{
    if s < 2 {
        1
    } else {
        1 + depth_bound(s / 2)
    }
}

pub proof fn lemma_depth_bound_pos(s: int)
    ensures
        depth_bound(s) >= 1,
    decreases
        (if s >= 2 {
            s
        } else {
            1
        }),
{
    if s >= 2 {
        lemma_depth_bound_pos(s / 2);
    }
}

/// The depth bound is monotone in the half-extent.
pub proof fn lemma_depth_bound_mono(s1: int, s2: int)
    requires
        s1 <= s2,
    ensures
        depth_bound(s1) <= depth_bound(s2),
    decreases
        (if s2 >= 2 {
            s2
        } else {
            1
        }),
{
    if s2 < 2 {
    } else if s1 < 2 {
        lemma_depth_bound_pos(s2);
    } else {
        vstd::arithmetic::div_mod::lemma_div_is_ordered(s1, s2, 2);
        lemma_depth_bound_mono(s1 / 2, s2 / 2);
    }
}

/// A tree over the world box is at most 27 levels deep.
pub proof fn lemma_depth_bound_world(s: int)
    requires
        0 <= s <= POS_LIMIT,
    ensures
        depth_bound(s) <= 27,
{
    lemma_depth_bound_mono(s, POS_LIMIT as int);
    assert(depth_bound(POS_LIMIT as int) == 27) by {
        reveal_with_fuel(depth_bound, 30);
    }
}

/// A finalized tree holds at most `2 * depth_bound(size) * number` nodes.
pub proof fn lemma_node_count_bound(node: OctreeNode)
    requires
        node.finalized(),
        node.number >= 1,
    ensures
        node.node_count() <= 2 * depth_bound(node.size as int) * node.number,
    decreases node, 1int,
{
    let d = depth_bound(node.size as int);
    let m = node.number as int;
    lemma_depth_bound_pos(node.size as int);
    if node.children.len() == 0 {
        lemma_count_nodes_nonneg(node.children@);
        assert(node.node_count() == 1);
        assert(1 <= 2 * d * m) by (nonlinear_arith)
            requires
                d >= 1,
                m >= 1,
        ;
    } else {
        let dh = depth_bound(node.size as int / 2);
        lemma_count_seq_bound(node.children@, node.size as int / 2);
        assert(d == 1 + dh);
        assert(sum_numbers(node.children@) == m);
        assert(1 + 2 * dh * m <= 2 * d * m) by (nonlinear_arith)
            requires
                d == dh + 1,
                m >= 1,
        ;
    }
}

/// Node-count bound for a sequence of finalized, non-empty siblings of one
/// half-extent.
pub proof fn lemma_count_seq_bound(s: Seq<OctreeNode>, hsize: int)
    requires
        forall|k: int| 0 <= k < s.len() ==> (#[trigger] s[k]).finalized(),
        forall|k: int| 0 <= k < s.len() ==> (#[trigger] s[k]).number >= 1,
        forall|k: int| 0 <= k < s.len() ==> (#[trigger] s[k]).size as int == hsize,
    ensures
        count_nodes_seq(s) <= 2 * depth_bound(hsize) * sum_numbers(s),
    decreases s, 0int,
{
    let d = depth_bound(hsize);
    lemma_depth_bound_pos(hsize);
    if s.len() == 0 {
        assert(2 * d * 0 == 0) by (nonlinear_arith);
    } else {
        assert(forall|k: int|
            0 <= k < s.drop_last().len() ==> s.drop_last()[k] == s[k]);
        lemma_count_seq_bound(s.drop_last(), hsize);
        lemma_node_count_bound(s.last());
        lemma_sum_numbers_nonneg(s.drop_last());
        let m1 = sum_numbers(s.drop_last());
        let m2 = s.last().number as int;
        assert(2 * d * m1 + 2 * d * m2 == 2 * d * (m1 + m2)) by (nonlinear_arith);
    }
}

/// The points of a vertex list, in insertion order.
pub open spec fn points_of(vs: Seq<SimVertex>) -> Seq<GPoint> {
    Seq::new(
        vs.len(),
        |i: int| GPoint { idx: i, x: vs[i].x as int, y: vs[i].y as int, z: vs[i].z as int },
    )
}

/// Appending a point extends each coordinate sum by that coordinate.
pub proof fn lemma_sum_push(pts: Seq<GPoint>, p: GPoint)
    ensures
        sum_px(pts.push(p)) == sum_px(pts) + p.x,
        sum_py(pts.push(p)) == sum_py(pts) + p.y,
        sum_pz(pts.push(p)) == sum_pz(pts) + p.z,
{
    assert(pts.push(p).drop_last() =~= pts);
    assert(pts.push(p).last() == p);
}

/// Replacing one node changes the count sum by the difference of counts.
pub proof fn lemma_sum_numbers_update(s: Seq<OctreeNode>, k: int, c: OctreeNode)
    requires
        0 <= k < s.len(),
    ensures
        sum_numbers(s.update(k, c)) == sum_numbers(s) - s[k].number + c.number,
    decreases s.len(),
{
    let t = s.update(k, c);
    if k == s.len() - 1 {
        assert(t.drop_last() =~= s.drop_last());
        assert(t.last() == c);
    } else {
        assert(t.drop_last() =~= s.drop_last().update(k, c));
        lemma_sum_numbers_update(s.drop_last(), k, c);
        assert(t.last() == s.last());
    }
}

/// A sequence of empty nodes has count sum zero.
pub proof fn lemma_sum_numbers_zero(s: Seq<OctreeNode>)
    requires
        forall|i: int| 0 <= i < s.len() ==> (#[trigger] s[i]).number == 0,
    ensures
        sum_numbers(s) == 0,
    decreases s.len(),
{
    if s.len() > 0 {
        assert(forall|i: int|
            0 <= i < s.drop_last().len() ==> s.drop_last()[i] == s[i]);
        lemma_sum_numbers_zero(s.drop_last());
    }
}

/// Count sums are non-negative.
pub proof fn lemma_sum_numbers_nonneg(s: Seq<OctreeNode>)
    ensures
        sum_numbers(s) >= 0,
    decreases s.len(),
{
    if s.len() > 0 {
        lemma_sum_numbers_nonneg(s.drop_last());
    }
}

/// Each node's count is at most the count sum of its sequence.
pub proof fn lemma_sum_numbers_le(s: Seq<OctreeNode>, k: int)
    requires
        0 <= k < s.len(),
    ensures
        s[k].number <= sum_numbers(s),
    decreases s.len(),
{
    if k == s.len() - 1 {
        lemma_sum_numbers_nonneg(s.drop_last());
    } else {
        lemma_sum_numbers_le(s.drop_last(), k);
        assert(s.drop_last()[k] == s[k]);
    }
}

/// The count sum splits off the first node.
pub proof fn lemma_sum_numbers_pop_front(s: Seq<OctreeNode>)
    requires
        s.len() >= 1,
    ensures
        sum_numbers(s) == s[0].number + sum_numbers(s.drop_first()),
    decreases s.len(),
{
    if s.len() == 1 {
        assert(s.drop_last() =~= Seq::<OctreeNode>::empty());
        assert(s.drop_first() =~= Seq::<OctreeNode>::empty());
    } else {
        lemma_sum_numbers_pop_front(s.drop_last());
        assert(s.drop_first().drop_last() =~= s.drop_last().drop_first());
        assert(s.drop_last()[0] == s[0]);
        assert(s.drop_first().last() == s.last());
    }
}

/// The quotient of a sum of `n` boxed coordinates by `n` stays in the box.
pub proof fn lemma_tdiv_avg_bound(s: int, n: int, p: int)
    requires
        n >= 1,
        p >= 0,
        -(n * p) <= s <= n * p,
    ensures
        -p <= tdiv(s, n) <= p,
{
    if s >= 0 {
        lemma_tdiv_mag(s, n, n * p);
        lemma_multiply_divide_le(s, n, p);
        vstd::arithmetic::div_mod::lemma_div_pos_is_pos(s, n);
    } else {
        lemma_multiply_divide_le(-s, n, p);
        vstd::arithmetic::div_mod::lemma_div_pos_is_pos(-s, n);
    }
}

/// The octree that one simulation tick rebuilds: a root node covering a cube
/// of half-extent `max_size` centered at the origin.
pub struct Octree {
    pub max_size: i64,
    pub root: OctreeNode,
}

impl Octree {
    /// An empty octree with a zero-extent root.
    pub fn new() -> (t: Octree)
        ensures
            t.max_size == 0,
            t.root.wf(),
            t.root.finalized(),
            t.root.number == 0,
            t.root.children@.len() == 0,
            t.root.size == 0,
            t.root.cx == 0 && t.root.cy == 0 && t.root.cz == 0,
            t.root.x == 0 && t.root.y == 0 && t.root.z == 0,
    {
        Octree {
            max_size: 0,
            root: OctreeNode {
                cx: 0,
                cy: 0,
                cz: 0,
                children: Vec::new(),
                x: 0,
                y: 0,
                z: 0,
                number: 0,
                size: 0,
                node: 0,
                pts: Ghost(Seq::empty()),
            },
        }
    }

    /// A fresh empty node for the cube at the given corner and half-extent.
    fn new_node(size: i64, cx: i64, cy: i64, cz: i64) -> (n: OctreeNode)
        requires
            0 <= size <= POS_LIMIT,
            -2 * POS_LIMIT + 2 * size <= cx <= 2 * POS_LIMIT - 2 * size,
            -2 * POS_LIMIT + 2 * size <= cy <= 2 * POS_LIMIT - 2 * size,
            -2 * POS_LIMIT + 2 * size <= cz <= 2 * POS_LIMIT - 2 * size,
        ensures
            n.wf(),
            n.number == 0,
            n.pts@ == Seq::<GPoint>::empty(),
            n.size == size,
            n.cx == cx && n.cy == cy && n.cz == cz,
            n.children@.len() == 0,
    {
        OctreeNode {
            cx,
            cy,
            cz,
            children: Vec::new(),
            x: 0,
            y: 0,
            z: 0,
            number: 0,
            size,
            node: 0,
            pts: Ghost(Seq::empty()),
        }
    }

    /// The octant of the cube with reference corner `(cx, cy, cz)` that the
    /// point falls into, by per-axis comparison against the corner.
    pub open spec fn octant_of(px: int, py: int, pz: int, cx: int, cy: int, cz: int) -> int {
        if px > cx {
            if py > cy {
                if pz > cz {
                    0
                } else {
                    1
                }
            } else {
                if pz > cz {
                    2
                } else {
                    3
                }
            }
        } else {
            if py > cy {
                if pz > cz {
                    4
                } else {
                    5
                }
            } else {
                if pz > cz {
                    6
                } else {
                    7
                }
            }
        }
    }

    /// Pick the child octant for a point by comparing each coordinate with
    /// the node's cube reference corner.
    fn check_node_position(px: i64, py: i64, pz: i64, cx: i64, cy: i64, cz: i64) -> (r: usize)
        ensures
            r as int == Self::octant_of(px as int, py as int, pz as int, cx as int, cy as int, cz as int),
            r < 8,
    {
        if px > cx {
            if py > cy {
                if pz > cz {
                    0
                } else {
                    1
                }
            } else {
                if pz > cz {
                    2
                } else {
                    3
                }
            }
        } else {
            if py > cy {
                if pz > cz {
                    4
                } else {
                    5
                }
            } else {
                if pz > cz {
                    6
                } else {
                    7
                }
            }
        }
    }

    /// Insert one vertex into the subtree. An empty node becomes a leaf; a
    /// leaf splits into eight child octants (unless the children would fall
    /// below the minimum half-extent, in which case the node becomes a
    /// bucket and keeps absorbing points); a split node passes the point to
    /// the octant it falls into. Every node on the way records the point in
    /// its aggregate.
    /// Take the child at octant `ci` out, insert the point into it, and put
    /// it back: only that octant changes, and the count sum grows by one.
    fn insert_into_octant(
        children: &mut Vec<OctreeNode>,
        ci: usize,
        idx: usize,
        px: i64,
        py: i64,
        pz: i64,
    )
        requires
            old(children)@.len() == 8,
            ci < 8,
            (old(children)@[ci as int]).wf(),
            old(children)@[ci as int].number < MAX_VERTICES,
            idx < MAX_VERTICES,
            -POS_LIMIT <= px <= POS_LIMIT,
            -POS_LIMIT <= py <= POS_LIMIT,
            -POS_LIMIT <= pz <= POS_LIMIT,
        ensures
            final(children)@.len() == 8,
            forall|k: int|
                0 <= k < 8 && k != ci as int ==> final(children)@[k] == old(children)@[k],
            (final(children)@[ci as int]).wf(),
            final(children)@[ci as int].number == old(children)@[ci as int].number + 1,
            final(children)@[ci as int].size == old(children)@[ci as int].size,
            final(children)@[ci as int].pts@ == old(children)@[ci as int].pts@.push(
                GPoint { idx: idx as int, x: px as int, y: py as int, z: pz as int },
            ),
            final(children)@[ci as int].cx == old(children)@[ci as int].cx,
            final(children)@[ci as int].cy == old(children)@[ci as int].cy,
            final(children)@[ci as int].cz == old(children)@[ci as int].cz,
            sum_numbers(final(children)@) == sum_numbers(old(children)@) + 1,
        decreases old(children)@[ci as int].size, 3int,
    {
        let ghost before = children@;
        let mut child = children.remove(ci);
        Self::set_into_tree(&mut child, idx, px, py, pz);
        children.insert(ci, child);
        proof {
            assert(children@ =~= before.update(ci as int, child));
            lemma_sum_numbers_update(before, ci as int, child);
        }
    }

    #[verifier::rlimit(100)]
    #[verifier::spinoff_prover]
    fn set_into_tree(tree: &mut OctreeNode, idx: usize, px: i64, py: i64, pz: i64)
        requires
            old(tree).wf(),
            old(tree).number < MAX_VERTICES,
            idx < MAX_VERTICES,
            -POS_LIMIT <= px <= POS_LIMIT,
            -POS_LIMIT <= py <= POS_LIMIT,
            -POS_LIMIT <= pz <= POS_LIMIT,
        ensures
            final(tree).wf(),
            final(tree).pts@ == old(tree).pts@.push(
                GPoint { idx: idx as int, x: px as int, y: py as int, z: pz as int },
            ),
            final(tree).number == old(tree).number + 1,
            final(tree).size == old(tree).size,
            final(tree).cx == old(tree).cx && final(tree).cy == old(tree).cy && final(tree).cz
                == old(tree).cz,
        decreases old(tree).size, 2int,
    {
        let ghost gp = GPoint { idx: idx as int, x: px as int, y: py as int, z: pz as int };
        if tree.number == 0 {
            // empty node: record the sole occupant
            tree.node = idx;
        } else if tree.number == 1 && tree.children.len() == 0 {
            let next_size: i64 = tree.size / 2;
            if next_size >= MIN_HALF_EXTENT {
                // split: make the eight child cubes
                let xp: i64 = tree.cx + next_size;
                let xm: i64 = tree.cx - next_size;
                let yp: i64 = tree.cy + next_size;
                let ym: i64 = tree.cy - next_size;
                let zp: i64 = tree.cz + next_size;
                let zm: i64 = tree.cz - next_size;
                let mut children: Vec<OctreeNode> = Vec::new();
                children.push(Self::new_node(next_size, xp, yp, zp));
                children.push(Self::new_node(next_size, xp, yp, zm));
                children.push(Self::new_node(next_size, xp, ym, zp));
                children.push(Self::new_node(next_size, xp, ym, zm));
                children.push(Self::new_node(next_size, xm, yp, zp));
                children.push(Self::new_node(next_size, xm, yp, zm));
                children.push(Self::new_node(next_size, xm, ym, zp));
                children.push(Self::new_node(next_size, xm, ym, zm));
                tree.children = children;
                proof {
                    assert(forall|k: int|
                        0 <= k < 8 ==> (#[trigger] tree.children@[k]).wf()
                            && tree.children@[k].number == 0 && tree.children@[k].size
                            == next_size && tree.children@[k].pts@ == Seq::<GPoint>::empty());
                    assert(forall|k: int|
                        0 <= k < 8 ==> (#[trigger] tree.children@[k]).cx as int == octant_corner_x(
                            tree.cx as int,
                            tree.size as int / 2,
                            k,
                        ) && tree.children@[k].cy as int == octant_corner_y(
                            tree.cy as int,
                            tree.size as int / 2,
                            k,
                        ) && tree.children@[k].cz as int == octant_corner_z(
                            tree.cz as int,
                            tree.size as int / 2,
                            k,
                        ));
                    lemma_sum_numbers_zero(tree.children@);
                }
                // the aggregate of a leaf is exactly its occupant's position
                let ox: i64 = tree.x;
                let oy: i64 = tree.y;
                let oz: i64 = tree.z;
                let onode: usize = tree.node;
                proof {
                    assert(tree.pts@.drop_last() =~= Seq::<GPoint>::empty());
                    assert(tree.pts@.last() == tree.pts@[0]);
                    assert(tree.pts@[0].in_box());
                }
                // re-insert the old occupant into its octant
                let oi = Self::check_node_position(ox, oy, oz, tree.cx, tree.cy, tree.cz);
                Self::insert_into_octant(&mut tree.children, oi, onode, ox, oy, oz);
                tree.node = usize::MAX;
                // insert the new vertex into its octant
                let ni = Self::check_node_position(px, py, pz, tree.cx, tree.cy, tree.cz);
                let ghost mid_children = tree.children@;
                Self::insert_into_octant(&mut tree.children, ni, idx, px, py, pz);
                proof {
                    let cxi = tree.cx as int;
                    let cyi = tree.cy as int;
                    let czi = tree.cz as int;
                    let pts1 = tree.pts@;
                    let p0 = pts1[0];
                    assert(ox as int == p0.x && oy as int == p0.y && oz as int == p0.z);
                    assert(GPoint { idx: onode as int, x: ox as int, y: oy as int, z: oz as int }
                        == p0);
                    lemma_octant_pts_single(pts1, cxi, cyi, czi);
                    lemma_octant_pts_push(pts1, cxi, cyi, czi, gp);
                    assert(forall|k: int|
                        0 <= k < 8 ==> (#[trigger] tree.children@[k]).cx as int == octant_corner_x(
                            cxi,
                            tree.size as int / 2,
                            k,
                        ) && tree.children@[k].cy as int == octant_corner_y(
                            cyi,
                            tree.size as int / 2,
                            k,
                        ) && tree.children@[k].cz as int == octant_corner_z(
                            czi,
                            tree.size as int / 2,
                            k,
                        ));
                    assert forall|k: int|
                        0 <= k < 8 implies (#[trigger] tree.children@[k]).pts@ == octant_pts(
                        pts1.push(gp),
                        cxi,
                        cyi,
                        czi,
                        k,
                    ) by {
                        if k == ni as int {
                            assert(tree.children@[k].pts@ == mid_children[k].pts@.push(gp));
                        } else {
                            assert(tree.children@[k] == mid_children[k]);
                        }
                    }
                }
            }
            // else: half-extent too small, keep the node as a bucket
        } else if tree.children.len() > 0 {
            // split node: descend into the point's octant
            let ci = Self::check_node_position(px, py, pz, tree.cx, tree.cy, tree.cz);
            proof {
                lemma_sum_numbers_le(tree.children@, ci as int);
            }
            let ghost pre_children = tree.children@;
            Self::insert_into_octant(&mut tree.children, ci, idx, px, py, pz);
            proof {
                let cxi = tree.cx as int;
                let cyi = tree.cy as int;
                let czi = tree.cz as int;
                lemma_octant_pts_push(tree.pts@, cxi, cyi, czi, gp);
                assert(forall|k: int|
                    0 <= k < 8 ==> (#[trigger] tree.children@[k]).cx as int == octant_corner_x(
                        cxi,
                        tree.size as int / 2,
                        k,
                    ) && tree.children@[k].cy as int == octant_corner_y(
                        cyi,
                        tree.size as int / 2,
                        k,
                    ) && tree.children@[k].cz as int == octant_corner_z(
                        czi,
                        tree.size as int / 2,
                        k,
                    ));
                assert forall|k: int|
                    0 <= k < 8 implies (#[trigger] tree.children@[k]).pts@ == octant_pts(
                    tree.pts@.push(gp),
                    cxi,
                    cyi,
                    czi,
                    k,
                ) by {
                    if k == ci as int {
                        assert(tree.children@[k].pts@ == pre_children[k].pts@.push(gp));
                    } else {
                        assert(tree.children@[k] == pre_children[k]);
                    }
                }
            }
        }
        // else: a bucket keeps absorbing points without children
        proof {
            lemma_sum_bounds(tree.pts@);
        }
        tree.number = tree.number + 1;
        tree.x = tree.x + px;
        tree.y = tree.y + py;
        tree.z = tree.z + pz;
        proof {
            lemma_sum_push(tree.pts@, gp);
        }
        tree.pts = Ghost(tree.pts@.push(gp));
    }

    /// Post-build pass: turn every aggregate sum into the average position
    /// of the points below the node, and drop empty octants. The order of
    /// the remaining children carries no meaning.
    fn calc_gravity_center(now: &mut OctreeNode)
        requires
            old(now).wf(),
        ensures
            final(now).finalized(),
            final(now).pts@ == old(now).pts@,
            final(now).number == old(now).number,
            final(now).size == old(now).size,
            final(now).node == old(now).node,
            final(now).cx == old(now).cx && final(now).cy == old(now).cy && final(now).cz == old(
                now,
            ).cz,
        decreases old(now).size,
    {
        if now.number > 0 {
            let n: i64 = now.number as i64;
            proof {
                lemma_sum_bounds(now.pts@);
                lemma_tdiv_avg_bound(now.x as int, n as int, POS_LIMIT as int);
                lemma_tdiv_avg_bound(now.y as int, n as int, POS_LIMIT as int);
                lemma_tdiv_avg_bound(now.z as int, n as int, POS_LIMIT as int);
                lemma_tdiv_mag(now.x as int, n as int, (MAX_VERTICES * POS_LIMIT) as int);
                lemma_tdiv_mag(now.y as int, n as int, (MAX_VERTICES * POS_LIMIT) as int);
                lemma_tdiv_mag(now.z as int, n as int, (MAX_VERTICES * POS_LIMIT) as int);
            }
            now.x = tdiv_i128(now.x as i128, n as i128) as i64;
            now.y = tdiv_i128(now.y as i128, n as i128) as i64;
            now.z = tdiv_i128(now.z as i128, n as i128) as i64;
        }
        let ghost divided = *now;
        let ghost orig = now.children@;
        let mut kept: Vec<OctreeNode> = Vec::new();
        while now.children.len() > 0
            invariant
                now.children@ =~= orig.subrange(
                    orig.len() - now.children@.len(),
                    orig.len() as int,
                ),
                now.children@.len() <= orig.len(),
                orig.len() == 0 || orig.len() == 8,
                forall|k: int| 0 <= k < orig.len() ==> (#[trigger] orig[k]).wf(),
                forall|k: int|
                    0 <= k < orig.len() ==> (#[trigger] orig[k]).size == old(now).size / 2,
                forall|k: int|
                    0 <= k < orig.len() ==> (#[trigger] orig[k]).cx as int == octant_corner_x(
                        old(now).cx as int,
                        old(now).size as int / 2,
                        k,
                    ) && orig[k].cy as int == octant_corner_y(
                        old(now).cy as int,
                        old(now).size as int / 2,
                        k,
                    ) && orig[k].cz as int == octant_corner_z(
                        old(now).cz as int,
                        old(now).size as int / 2,
                        k,
                    ),
                forall|k: int|
                    0 <= k < orig.len() ==> (#[trigger] orig[k]).pts@ == octant_pts(
                        old(now).pts@,
                        old(now).cx as int,
                        old(now).cy as int,
                        old(now).cz as int,
                        k,
                    ),
                old(now).size <= POS_LIMIT,
                orig.len() > 0 ==> 2 <= old(now).size,
                kept@.len() + now.children@.len() <= orig.len(),
                sum_numbers(kept@) + sum_numbers(now.children@) == sum_numbers(orig),
                forall|k: int| 0 <= k < kept@.len() ==> (#[trigger] kept@[k]).finalized(),
                forall|k: int| 0 <= k < kept@.len() ==> (#[trigger] kept@[k]).number >= 1,
                forall|k: int|
                    0 <= k < kept@.len() ==> (#[trigger] kept@[k]).size == old(now).size / 2,
                forall|k: int|
                    0 <= k < kept@.len() ==> (#[trigger] kept@[k]).cx as int == octant_corner_x(
                        old(now).cx as int,
                        old(now).size as int / 2,
                        child_octant(
                            kept@[k],
                            old(now).cx as int,
                            old(now).cy as int,
                            old(now).cz as int,
                        ),
                    ) && kept@[k].cy as int == octant_corner_y(
                        old(now).cy as int,
                        old(now).size as int / 2,
                        child_octant(
                            kept@[k],
                            old(now).cx as int,
                            old(now).cy as int,
                            old(now).cz as int,
                        ),
                    ) && kept@[k].cz as int == octant_corner_z(
                        old(now).cz as int,
                        old(now).size as int / 2,
                        child_octant(
                            kept@[k],
                            old(now).cx as int,
                            old(now).cy as int,
                            old(now).cz as int,
                        ),
                    ),
                forall|k: int|
                    0 <= k < kept@.len() ==> (#[trigger] kept@[k]).pts@ == octant_pts(
                        old(now).pts@,
                        old(now).cx as int,
                        old(now).cy as int,
                        old(now).cz as int,
                        child_octant(
                            kept@[k],
                            old(now).cx as int,
                            old(now).cy as int,
                            old(now).cz as int,
                        ),
                    ),
                forall|k: int|
                    0 <= k < kept@.len() ==> child_octant(
                        #[trigger] kept@[k],
                        old(now).cx as int,
                        old(now).cy as int,
                        old(now).cz as int,
                    ) < orig.len() - now.children@.len(),
                forall|k1: int, k2: int|
                    #![trigger kept@[k1], kept@[k2]]
                    0 <= k1 < k2 < kept@.len() ==> child_octant(
                        kept@[k1],
                        old(now).cx as int,
                        old(now).cy as int,
                        old(now).cz as int,
                    ) < child_octant(
                        kept@[k2],
                        old(now).cx as int,
                        old(now).cy as int,
                        old(now).cz as int,
                    ),
                now.pts@ == divided.pts@,
                now.number == divided.number,
                now.size == divided.size,
                now.node == divided.node,
                now.cx == divided.cx && now.cy == divided.cy && now.cz == divided.cz,
                now.x == divided.x && now.y == divided.y && now.z == divided.z,
            decreases now.children@.len(),
        {
            proof {
                lemma_sum_numbers_pop_front(now.children@);
                assert(now.children@[0] == orig[orig.len() - now.children@.len()]);
            }
            let ghost k0 = orig.len() - now.children@.len();
            let mut ch = now.children.remove(0);
            if ch.number > 0 {
                Self::calc_gravity_center(&mut ch);
                let ghost kept_before = kept@;
                kept.push(ch);
                proof {
                    assert(kept@.drop_last() =~= kept_before);
                    // the pruned sequence loses the index-to-octant mapping,
                    // so read the octant back from the child's corner
                    assert(old(now).size as int / 2 >= 1);
                    assert(child_octant(
                        ch,
                        old(now).cx as int,
                        old(now).cy as int,
                        old(now).cz as int,
                    ) == k0);
                }
            }
        }
        now.children = kept;
        proof {
            if now.number >= 2 && now.size >= 2 && now.children@.len() == 0 {
                assert(sum_numbers(now.children@) == 0);
            }
        }
    }

    /// Build the tree over the given vertices: a root cube of half-extent
    /// `max_size` centered at the origin, one insertion per vertex, then the
    /// center-of-mass pass. Afterwards the root accounts for every vertex.
    pub fn build(&mut self, vertexes: &Vec<SimVertex>)
        requires
            0 <= old(self).max_size <= POS_LIMIT,
            vertexes@.len() <= MAX_VERTICES,
            forall|i: int| 0 <= i < vertexes@.len() ==> (#[trigger] vertexes@[i]).in_bounds(),
        ensures
            final(self).max_size == old(self).max_size,
            final(self).root.finalized(),
            final(self).root.number == vertexes@.len(),
            final(self).root.pts@ == points_of(vertexes@),
            final(self).root.size == old(self).max_size,
            final(self).root.cx == 0 && final(self).root.cy == 0 && final(self).root.cz == 0,
    {
        let mut root = Self::new_node(self.max_size, 0, 0, 0);
        let ghost all = points_of(vertexes@);
        proof {
            assert(all.take(0) =~= Seq::<GPoint>::empty());
        }
        let mut i: usize = 0;
        while i < vertexes.len()
            invariant
                i <= vertexes@.len(),
                vertexes@.len() <= MAX_VERTICES,
                forall|k: int| 0 <= k < vertexes@.len() ==> (#[trigger] vertexes@[k]).in_bounds(),
                root.wf(),
                root.number == i,
                root.pts@ == all.take(i as int),
                all == points_of(vertexes@),
                root.size == old(self).max_size,
                root.cx == 0 && root.cy == 0 && root.cz == 0,
            decreases vertexes@.len() - i,
        {
            let v = vertexes[i];
            Self::set_into_tree(&mut root, i, v.x, v.y, v.z);
            proof {
                assert(all.take(i + 1) =~= all.take(i as int).push(all[i as int]));
            }
            i = i + 1;
        }
        proof {
            assert(all.take(vertexes@.len() as int) =~= all);
        }
        Self::calc_gravity_center(&mut root);
        self.root = root;
    }
}

/// Mass conservation across one split: the children of any internal node of
/// a finalized tree account for exactly the node's point count. Together
/// with `build`'s guarantee that the root counts every inserted vertex, the
/// total mass is conserved down every chain of splits. (A literal per-depth
/// sum holds only down to the first leaf: a tree of one vertex has mass one
/// at its root and no nodes below it.)
pub proof fn lemma_mass_conservation(node: OctreeNode)
    requires
        node.finalized(),
        node.children@.len() > 0,
    ensures
        sum_numbers(node.children@) == node.number,
{
}

/// Center-of-mass of a pair: a finalized node holding exactly two points
/// carries the truncated average of their positions.
pub proof fn lemma_center_of_mass_pair(node: OctreeNode)
    requires
        node.finalized(),
        node.pts@.len() == 2,
    ensures
        node.x == tdiv(node.pts@[0].x + node.pts@[1].x, 2),
        node.y == tdiv(node.pts@[0].y + node.pts@[1].y, 2),
        node.z == tdiv(node.pts@[0].z + node.pts@[1].z, 2),
{
    let pts = node.pts@;
    assert(pts.drop_last().drop_last() =~= Seq::<GPoint>::empty());
    assert(pts.drop_last().last() == pts[0]);
    assert(pts.last() == pts[1]);
    assert(sum_px(pts.drop_last().drop_last()) == 0);
    assert(sum_px(pts.drop_last()) == pts[0].x);
    assert(sum_px(pts) == pts[0].x + pts[1].x);
    assert(sum_py(pts.drop_last().drop_last()) == 0);
    assert(sum_py(pts.drop_last()) == pts[0].y);
    assert(sum_py(pts) == pts[0].y + pts[1].y);
    assert(sum_pz(pts.drop_last().drop_last()) == 0);
    assert(sum_pz(pts.drop_last()) == pts[0].z);
    assert(sum_pz(pts) == pts[0].z + pts[1].z);
}

} // verus!
