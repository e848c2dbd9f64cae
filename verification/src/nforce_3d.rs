//! The force simulator: one Barnes–Hut relaxation tick over a vertex list.
//!
//! A tick recomputes the bounding extent, rebuilds the octree, accumulates a
//! repulsive contribution per vertex by walking the tree with a growable
//! worklist, adds a bounded centering nudge, accumulates the attractive
//! contribution along every edge (weighted by the cached degree bias), and
//! finally integrates: position plus velocity, velocity cleared.
//!
//! All quantities are fixed-point integers (see the crate's data model);
//! every public operation states the exact new value of each vertex.

use crate::math::{
    abs_i, clamp_i, clamp128, isqrt_u64, lemma_tdiv_abs_eq, lemma_tdiv_abs_ordered, lemma_tdiv_mag,
    sqrt_floor, tdiv, tdiv_i128,
};
use crate::model::{
    edges_valid, LinkBias, SimEdge, SimVertex, MAX_DEGREE, MAX_STRENGTH, MAX_VERTICES, POS_LIMIT,
    SCALE, VEL_LIMIT,
};
use crate::octree::{
    count_nodes_seq, depth_bound, lemma_count_nodes_nonneg, lemma_count_nodes_pop_front,
    lemma_depth_bound_world, lemma_node_count_bound, lemma_node_count_pos, points_of, Octree,
    OctreeNode,
};
use vstd::prelude::*;

verus! {

/// Largest magnitude one repulsive term can reach:
/// `2 * POS_LIMIT * MAX_VERTICES * SCALE * MAX_STRENGTH`.
pub const CONTRIB_LIMIT: i128 = 200_000_000_000_000_000_000_000;

/// The degree-biased force simulator and its tuning constants. A parameter
/// value `p` stands for the ratio `p / SCALE`; the defaults mirror a link
/// distance of 100 units, a link strength of 0.1, an opening angle of 1.0, a
/// center pull of 0.01 and a repulsion strength of 40.
pub struct NForce {
    pub alpha: i64,
    pub link_distance: i64,
    pub link_strength: i64,
    pub theta: i64,
    pub octree: Octree,
    pub center_strength: i64,
    pub strength: i64,
    pub size: i64,
    pub bias: Vec<LinkBias>,
}

/// The largest absolute coordinate of any vertex position.
pub open spec fn max_extent(vs: Seq<SimVertex>) -> int
    decreases vs.len(),
{
    if vs.len() == 0 {
        0
    } else {
        let m = max_extent(vs.drop_last());
        let v = vs.last();
        let mx = if abs_i(v.x as int) > m {
            abs_i(v.x as int)
        } else {
            m
        };
        let my = if abs_i(v.y as int) > mx {
            abs_i(v.y as int)
        } else {
            mx
        };
        if abs_i(v.z as int) > my {
            abs_i(v.z as int)
        } else {
            my
        }
    }
}

/// The bias of one edge: source degree over the sum of both degrees.
pub open spec fn bias_of(vs: Seq<SimVertex>, e: SimEdge) -> LinkBias {
    LinkBias {
        num: vs[e.source as int].degree,
        den: (vs[e.source as int].degree + vs[e.target as int].degree) as i64,
    }
}

/// A vertex after integration: the accumulated velocity is added to the
/// position (clamped into the world box) and then cleared.
pub open spec fn settled(v: SimVertex) -> SimVertex {
    SimVertex {
        x: clamp_i(v.x + v.vx, POS_LIMIT as int) as i64,
        y: clamp_i(v.y + v.vy, POS_LIMIT as int) as i64,
        z: clamp_i(v.z + v.vz, POS_LIMIT as int) as i64,
        vx: 0,
        vy: 0,
        vz: 0,
        degree: v.degree,
    }
}

/// The opening test: a node is "close" to the point when the squared
/// distance from the point to the node's cube reference corner is below
/// `size^2 * theta` (with `theta` a `SCALE`-scaled ratio). Close leaves get
/// a direct pairwise term, close internal nodes are descended into, and far
/// nodes act as one aggregate mass at their center of mass.
pub open spec fn is_close(node: OctreeNode, px: int, py: int, pz: int, theta: int) -> bool {
    let dx = px - node.cx;
    let dy = py - node.cy;
    let dz = pz - node.cz;
    (dx * dx + dy * dy + dz * dz) * SCALE < node.size * node.size * theta
}

/// One repulsive term between the point and a node taken as a mass of
/// `number` at its center of mass: `delta * (-number * alpha * strength) /
/// max(|delta|^2, 1)`, the denominator clamped so coincident points cannot
/// divide by zero.
pub open spec fn repulse_term(node: OctreeNode, px: int, py: int, pz: int, a: int, s: int) -> (
    int,
    int,
    int,
) {
    let dx = node.x - px;
    let dy = node.y - py;
    let dz = node.z - pz;
    let l2 = dx * dx + dy * dy + dz * dz;
    let l2c = if l2 == 0 {
        1
    } else {
        l2
    };
    (
        tdiv(-(dx * node.number * a * s), l2c),
        tdiv(-(dy * node.number * a * s), l2c),
        tdiv(-(dz * node.number * a * s), l2c),
    )
}

/// The repulsive velocity a worklist walk from this node accumulates for
/// vertex `i` at the given position: skip the vertex's own leaf, take a
/// direct term at close leaves, descend into close internal nodes, and take
/// one aggregate term at far nodes.
pub open spec fn bh_vel(
    node: OctreeNode,
    i: int,
    px: int,
    py: int,
    pz: int,
    a: int,
    s: int,
    theta: int,
) -> (int, int, int)
    decreases node, 1int,
{
    if node.number == 1 && node.node as int == i {
        (0, 0, 0)
    } else if is_close(node, px, py, pz, theta) {
        if node.number == 1 {
            repulse_term(node, px, py, pz, a, s)
        } else {
            bh_vel_seq(node.children@, i, px, py, pz, a, s, theta)
        }
    } else {
        repulse_term(node, px, py, pz, a, s)
    }
}

/// Sum of `bh_vel` over a sequence of subtrees.
pub open spec fn bh_vel_seq(
    ns: Seq<OctreeNode>,
    i: int,
    px: int,
    py: int,
    pz: int,
    a: int,
    s: int,
    theta: int,
) -> (int, int, int)
    decreases ns, 0int,
{
    if ns.len() == 0 {
        (0, 0, 0)
    } else {
        let h = bh_vel(ns[0], i, px, py, pz, a, s, theta);
        let t = bh_vel_seq(ns.drop_first(), i, px, py, pz, a, s, theta);
        (h.0 + t.0, h.1 + t.1, h.2 + t.2)
    }
}

/// Sum of `bh_vel` over the pending part of a worklist of node references.
pub open spec fn bh_sum_q(
    q: Seq<&OctreeNode>,
    i: int,
    px: int,
    py: int,
    pz: int,
    a: int,
    s: int,
    theta: int,
) -> (int, int, int)
    decreases q.len(),
{
    if q.len() == 0 {
        (0, 0, 0)
    } else {
        let h = bh_vel(*q[0], i, px, py, pz, a, s, theta);
        let t = bh_sum_q(q.drop_first(), i, px, py, pz, a, s, theta);
        (h.0 + t.0, h.1 + t.1, h.2 + t.2)
    }
}

/// Total node count of the subtrees pending in a worklist.
pub open spec fn nc_sum_q(q: Seq<&OctreeNode>) -> int
    decreases q.len(),
{
    if q.len() == 0 {
        0
    } else {
        (*q[0]).node_count() + nc_sum_q(q.drop_first())
    }
}

/// Pending node counts are non-negative.
pub proof fn lemma_nc_sum_q_nonneg(q: Seq<&OctreeNode>)
    ensures
        nc_sum_q(q) >= 0,
    decreases q.len(),
{
    if q.len() > 0 {
        lemma_node_count_pos(*q[0]);
        lemma_nc_sum_q_nonneg(q.drop_first());
    }
}

/// The sums of a concatenated worklist are the sums of its parts.
pub proof fn lemma_q_concat(
    q1: Seq<&OctreeNode>,
    q2: Seq<&OctreeNode>,
    i: int,
    px: int,
    py: int,
    pz: int,
    a: int,
    s: int,
    theta: int,
)
    ensures
        bh_sum_q(q1 + q2, i, px, py, pz, a, s, theta).0 == bh_sum_q(q1, i, px, py, pz, a, s, theta).0
            + bh_sum_q(q2, i, px, py, pz, a, s, theta).0,
        bh_sum_q(q1 + q2, i, px, py, pz, a, s, theta).1 == bh_sum_q(q1, i, px, py, pz, a, s, theta).1
            + bh_sum_q(q2, i, px, py, pz, a, s, theta).1,
        bh_sum_q(q1 + q2, i, px, py, pz, a, s, theta).2 == bh_sum_q(q1, i, px, py, pz, a, s, theta).2
            + bh_sum_q(q2, i, px, py, pz, a, s, theta).2,
        nc_sum_q(q1 + q2) == nc_sum_q(q1) + nc_sum_q(q2),
    decreases q1.len(),
{
    if q1.len() == 0 {
        assert(q1 + q2 =~= q2);
    } else {
        assert((q1 + q2).drop_first() =~= q1.drop_first() + q2);
        assert((q1 + q2)[0] == q1[0]);
        lemma_q_concat(q1.drop_first(), q2, i, px, py, pz, a, s, theta);
    }
}

/// A sequence of subtrees contributes the same sums whether reached through
/// references in a worklist or directly.
pub proof fn lemma_q_matches(
    q: Seq<&OctreeNode>,
    ns: Seq<OctreeNode>,
    i: int,
    px: int,
    py: int,
    pz: int,
    a: int,
    s: int,
    theta: int,
)
    requires
        q.len() == ns.len(),
        forall|j: int| 0 <= j < q.len() ==> *(#[trigger] q[j]) == ns[j],
    ensures
        bh_sum_q(q, i, px, py, pz, a, s, theta) == bh_vel_seq(ns, i, px, py, pz, a, s, theta),
        nc_sum_q(q) == count_nodes_seq(ns),
    decreases q.len(),
{
    if q.len() > 0 {
        assert(forall|j: int|
            0 <= j < q.drop_first().len() ==> q.drop_first()[j] == q[j + 1]);
        assert(forall|j: int|
            0 <= j < ns.drop_first().len() ==> ns.drop_first()[j] == ns[j + 1]);
        lemma_q_matches(q.drop_first(), ns.drop_first(), i, px, py, pz, a, s, theta);
        lemma_count_nodes_pop_front(ns);
    }
}

/// The centering nudge: on each axis a fixed magnitude of
/// `center_strength * alpha * (degree + 1) / SCALE`, directed against the
/// sign of the vertex's offset from the tree's center of mass.
pub open spec fn center_term(v: SimVertex, root: OctreeNode, c: int, a: int) -> (int, int, int) {
    let m = tdiv(c * a * (v.degree + 1), SCALE as int);
    (
        if v.x - root.x > 0 {
            -m
        } else {
            m
        },
        if v.y - root.y > 0 {
            -m
        } else {
            m
        },
        if v.z - root.z > 0 {
            -m
        } else {
            m
        },
    )
}

/// One attractive step along an edge, on the current vertex list. Self-loops
/// and zero-length edge vectors change nothing. Otherwise, with `delta` the
/// difference of the endpoints' semi-implicit positions (position plus the
/// velocity accumulated so far this tick), `l` its length and `c` the factor
/// `(l - link_distance) * link_strength * alpha`, the source loses
/// `delta * (den - num) * c / (l * den * SCALE * SCALE)` of velocity and the
/// target gains `delta * num * c / (l * den * SCALE * SCALE)` (one `SCALE`
/// for each scaled factor in `c`): the higher-degree endpoint is displaced
/// less.
pub open spec fn link_step(
    vs: Seq<SimVertex>,
    e: SimEdge,
    b: LinkBias,
    ld: int,
    ls: int,
    a: int,
) -> Seq<SimVertex> {
    if e.source == e.target {
        vs
    } else {
        let sv = vs[e.source as int];
        let tv = vs[e.target as int];
        let dx = (sv.x + sv.vx) - (tv.x + tv.vx);
        let dy = (sv.y + sv.vy) - (tv.y + tv.vy);
        let dz = (sv.z + sv.vz) - (tv.z + tv.vz);
        let l2 = dx * dx + dy * dy + dz * dz;
        if l2 == 0 {
            vs
        } else {
            let l = sqrt_floor(l2);
            let c = (l - ld) * ls * a;
            let den = l * b.den * SCALE * SCALE;
            let sfac = b.den - b.num;
            let sv2 = SimVertex {
                x: sv.x,
                y: sv.y,
                z: sv.z,
                vx: clamp_i(sv.vx - tdiv(dx * sfac * c, den), VEL_LIMIT as int) as i64,
                vy: clamp_i(sv.vy - tdiv(dy * sfac * c, den), VEL_LIMIT as int) as i64,
                vz: clamp_i(sv.vz - tdiv(dz * sfac * c, den), VEL_LIMIT as int) as i64,
                degree: sv.degree,
            };
            let tv2 = SimVertex {
                x: tv.x,
                y: tv.y,
                z: tv.z,
                vx: clamp_i(tv.vx + tdiv(dx * b.num * c, den), VEL_LIMIT as int) as i64,
                vy: clamp_i(tv.vy + tdiv(dy * b.num * c, den), VEL_LIMIT as int) as i64,
                vz: clamp_i(tv.vz + tdiv(dz * b.num * c, den), VEL_LIMIT as int) as i64,
                degree: tv.degree,
            };
            vs.update(e.source as int, sv2).update(e.target as int, tv2)
        }
    }
}

/// The attractive pass: the link steps of all edges, applied in order, each
/// on the vertex list the previous one left.
pub open spec fn link_pass(
    vs: Seq<SimVertex>,
    es: Seq<SimEdge>,
    bs: Seq<LinkBias>,
    ld: int,
    ls: int,
    a: int,
) -> Seq<SimVertex>
    decreases es.len(),
{
    if es.len() == 0 {
        vs
    } else {
        link_step(
            link_pass(vs, es.drop_last(), bs.drop_last(), ld, ls, a),
            es.last(),
            bs.last(),
            ld,
            ls,
            a,
        )
    }
}

/// A vertex after the repulsion-and-centering pass: the walk's accumulated
/// repulsion is added to the velocity (clamped), then the centering nudge
/// (clamped). Position and degree stay.
pub open spec fn vert_after_force(
    v: SimVertex,
    i: int,
    root: OctreeNode,
    a: int,
    s: int,
    c: int,
    theta: int,
) -> SimVertex {
    let b = bh_vel(root, i, v.x as int, v.y as int, v.z as int, a, s, theta);
    let vx1 = clamp_i(v.vx + b.0, VEL_LIMIT as int);
    let vy1 = clamp_i(v.vy + b.1, VEL_LIMIT as int);
    let vz1 = clamp_i(v.vz + b.2, VEL_LIMIT as int);
    let ct = center_term(v, root, c, a);
    SimVertex {
        x: v.x,
        y: v.y,
        z: v.z,
        vx: clamp_i(vx1 + ct.0, VEL_LIMIT as int) as i64,
        vy: clamp_i(vy1 + ct.1, VEL_LIMIT as int) as i64,
        vz: clamp_i(vz1 + ct.2, VEL_LIMIT as int) as i64,
        degree: v.degree,
    }
}

impl NForce {
    /// All tuning constants within the ranges the arithmetic is proved for.
    pub open spec fn params_wf(self) -> bool {
        &&& 0 <= self.alpha <= SCALE
        &&& 0 <= self.link_distance <= POS_LIMIT
        &&& 0 <= self.link_strength <= MAX_STRENGTH
        &&& 0 <= self.theta <= MAX_STRENGTH
        &&& 0 <= self.center_strength <= MAX_STRENGTH
        &&& 0 <= self.strength <= MAX_STRENGTH
    }

    /// A simulator with the default tuning constants and an empty tree.
    pub fn new() -> (r: NForce)
        ensures
            r.params_wf(),
            r.alpha == SCALE,
            r.link_distance == 100 * SCALE,
            r.link_strength == 100,
            r.theta == SCALE,
            r.center_strength == 10,
            r.strength == 40 * SCALE,
            r.size == 0,
            r.bias@.len() == 0,
            r.octree.max_size == 0,
            r.octree.root.finalized(),
            r.octree.root.number == 0,
            r.octree.root.size == 0,
            r.octree.root.cx == 0 && r.octree.root.cy == 0 && r.octree.root.cz == 0,
    {
        NForce {
            alpha: 1000,
            link_distance: 100_000,
            link_strength: 100,
            theta: 1000,
            center_strength: 10,
            strength: 40_000,
            octree: Octree::new(),
            size: 0,
            bias: Vec::new(),
        }
    }

    /// Compute and cache the bias of every edge: the source degree divided
    /// by the sum of both endpoint degrees, kept as an exact rational.
    /// Degrees must already be computed on the vertices.
    pub fn calc_link_bias(&mut self, vertexes: &Vec<SimVertex>, edges: &Vec<SimEdge>) -> (r: Vec<
        LinkBias,
    >)
        requires
            edges_valid(edges@, vertexes@.len() as int),
            forall|i: int| 0 <= i < vertexes@.len() ==> (#[trigger] vertexes@[i]).in_bounds(),
            forall|i: int|
                0 <= i < edges@.len() ==> vertexes@[(#[trigger] edges@[i]).source as int].degree
                    + vertexes@[edges@[i].target as int].degree >= 1,
        ensures
            final(self).bias@.len() == edges@.len(),
            forall|i: int|
                0 <= i < edges@.len() ==> final(self).bias@[i] == bias_of(
                    vertexes@,
                    #[trigger] edges@[i],
                ),
            forall|i: int| 0 <= i < edges@.len() ==> (#[trigger] final(self).bias@[i]).valid(),
            r@ == final(self).bias@,
            final(self).alpha == old(self).alpha,
            final(self).link_distance == old(self).link_distance,
            final(self).link_strength == old(self).link_strength,
            final(self).theta == old(self).theta,
            final(self).center_strength == old(self).center_strength,
            final(self).strength == old(self).strength,
            final(self).size == old(self).size,
            final(self).octree == old(self).octree,
    {
        let mut bias: Vec<LinkBias> = Vec::new();
        let mut i: usize = 0;
        while i < edges.len()
            invariant
                i <= edges@.len(),
                edges_valid(edges@, vertexes@.len() as int),
                forall|k: int| 0 <= k < vertexes@.len() ==> (#[trigger] vertexes@[k]).in_bounds(),
                forall|k: int|
                    0 <= k < edges@.len() ==> vertexes@[(#[trigger] edges@[k]).source as int].degree
                        + vertexes@[edges@[k].target as int].degree >= 1,
                bias@.len() == i,
                forall|k: int|
                    0 <= k < i ==> bias@[k] == bias_of(vertexes@, #[trigger] edges@[k]),
                forall|k: int| 0 <= k < i ==> (#[trigger] bias@[k]).valid(),
            decreases edges@.len() - i,
        {
            let e = edges[i];
            let sd: i64 = vertexes[e.source].degree;
            let td: i64 = vertexes[e.target].degree;
            bias.push(LinkBias { num: sd, den: sd + td });
            i = i + 1;
        }
        self.bias = bias;
        let mut out: Vec<LinkBias> = Vec::new();
        let mut j: usize = 0;
        while j < self.bias.len()
            invariant
                j <= self.bias@.len(),
                out@.len() == j,
                forall|k: int| 0 <= k < j ==> out@[k] == self.bias@[k],
            decreases self.bias@.len() - j,
        {
            out.push(self.bias[j]);
            j = j + 1;
        }
        proof {
            assert(out@ =~= self.bias@);
        }
        out
    }

    /// A copy of the cached bias list.
    pub fn get_bias(&self) -> (r: Vec<LinkBias>)
        ensures
            r@ == self.bias@,
    {
        let mut out: Vec<LinkBias> = Vec::new();
        let mut j: usize = 0;
        while j < self.bias.len()
            invariant
                j <= self.bias@.len(),
                out@.len() == j,
                forall|k: int| 0 <= k < j ==> out@[k] == self.bias@[k],
            decreases self.bias@.len() - j,
        {
            out.push(self.bias[j]);
            j = j + 1;
        }
        proof {
            assert(out@ =~= self.bias@);
        }
        out
    }

    /// One repulsive term, computed in wide integers; the result is exactly
    /// the specified quotient and bounded by `CONTRIB_LIMIT`.
    fn add_octree_force(node: &OctreeNode, px: i64, py: i64, pz: i64, a: i64, s: i64) -> (r: (
        i128,
        i128,
        i128,
    ))
        requires
            -POS_LIMIT <= node.x <= POS_LIMIT,
            -POS_LIMIT <= node.y <= POS_LIMIT,
            -POS_LIMIT <= node.z <= POS_LIMIT,
            node.number <= MAX_VERTICES,
            -POS_LIMIT <= px <= POS_LIMIT,
            -POS_LIMIT <= py <= POS_LIMIT,
            -POS_LIMIT <= pz <= POS_LIMIT,
            0 <= a <= SCALE,
            0 <= s <= MAX_STRENGTH,
        ensures
            r.0 as int == repulse_term(*node, px as int, py as int, pz as int, a as int, s as int).0,
            r.1 as int == repulse_term(*node, px as int, py as int, pz as int, a as int, s as int).1,
            r.2 as int == repulse_term(*node, px as int, py as int, pz as int, a as int, s as int).2,
            -CONTRIB_LIMIT <= r.0 <= CONTRIB_LIMIT,
            -CONTRIB_LIMIT <= r.1 <= CONTRIB_LIMIT,
            -CONTRIB_LIMIT <= r.2 <= CONTRIB_LIMIT,
    {
        let dx: i64 = node.x - px;
        let dy: i64 = node.y - py;
        let dz: i64 = node.z - pz;
        proof {
            assert(dx * dx <= 40_000_000_000_000_000 && dx * dx >= 0) by (nonlinear_arith)
                requires
                    -200_000_000 <= dx <= 200_000_000,
            ;
            assert(dy * dy <= 40_000_000_000_000_000 && dy * dy >= 0) by (nonlinear_arith)
                requires
                    -200_000_000 <= dy <= 200_000_000,
            ;
            assert(dz * dz <= 40_000_000_000_000_000 && dz * dz >= 0) by (nonlinear_arith)
                requires
                    -200_000_000 <= dz <= 200_000_000,
            ;
        }
        let l2: i64 = dx * dx + dy * dy + dz * dz;
        let l2c: i64 = if l2 == 0 {
            1
        } else {
            l2
        };
        proof {
            assert((node.number as int) * (a as int) <= 1_000_000_000 && 0 <= (node.number as int)
                * (a as int)) by (nonlinear_arith)
                requires
                    0 <= node.number as int <= 1_000_000,
                    0 <= a as int <= 1000,
            ;
        }
        let na: i128 = (node.number as i128) * (a as i128);
        proof {
            assert((na as int) * (s as int) <= 1_000_000_000_000_000 && 0 <= (na as int) * (
            s as int)) by (nonlinear_arith)
                requires
                    0 <= na as int <= 1_000_000_000,
                    0 <= s as int <= 1_000_000,
            ;
        }
        let nas: i128 = na * (s as i128);
        proof {
            assert((dx as int) * (nas as int) <= 200_000_000_000_000_000_000_000 && (dx as int) * (
            nas as int) >= -200_000_000_000_000_000_000_000) by (nonlinear_arith)
                requires
                    -200_000_000 <= dx as int <= 200_000_000,
                    0 <= nas as int <= 1_000_000_000_000_000,
            ;
            assert((dy as int) * (nas as int) <= 200_000_000_000_000_000_000_000 && (dy as int) * (
            nas as int) >= -200_000_000_000_000_000_000_000) by (nonlinear_arith)
                requires
                    -200_000_000 <= dy as int <= 200_000_000,
                    0 <= nas as int <= 1_000_000_000_000_000,
            ;
            assert((dz as int) * (nas as int) <= 200_000_000_000_000_000_000_000 && (dz as int) * (
            nas as int) >= -200_000_000_000_000_000_000_000) by (nonlinear_arith)
                requires
                    -200_000_000 <= dz as int <= 200_000_000,
                    0 <= nas as int <= 1_000_000_000_000_000,
            ;
        }
        let rx: i128 = tdiv_i128(-((dx as i128) * nas), l2c as i128);
        let ry: i128 = tdiv_i128(-((dy as i128) * nas), l2c as i128);
        let rz: i128 = tdiv_i128(-((dz as i128) * nas), l2c as i128);
        proof {
            lemma_tdiv_mag(
                -((dx as int) * (nas as int)),
                l2c as int,
                200_000_000_000_000_000_000_000,
            );
            lemma_tdiv_mag(
                -((dy as int) * (nas as int)),
                l2c as int,
                200_000_000_000_000_000_000_000,
            );
            lemma_tdiv_mag(
                -((dz as int) * (nas as int)),
                l2c as int,
                200_000_000_000_000_000_000_000,
            );
            assert((dx as int) * (node.number as int) * (a as int) * (s as int) == (dx as int) * ((
            nas as int))) by (nonlinear_arith)
                requires
                    nas as int == (node.number as int) * (a as int) * (s as int),
            ;
            assert((dy as int) * (node.number as int) * (a as int) * (s as int) == (dy as int) * ((
            nas as int))) by (nonlinear_arith)
                requires
                    nas as int == (node.number as int) * (a as int) * (s as int),
            ;
            assert((dz as int) * (node.number as int) * (a as int) * (s as int) == (dz as int) * ((
            nas as int))) by (nonlinear_arith)
                requires
                    nas as int == (node.number as int) * (a as int) * (s as int),
            ;
        }
        (rx, ry, rz)
    }

    /// The centering magnitude `center_strength * alpha * (degree + 1) /
    /// SCALE`, exact and non-negative.
    fn center_magnitude(&self, degree: i64) -> (r: i128)
        requires
            self.params_wf(),
            0 <= degree <= MAX_DEGREE,
        ensures
            r as int == tdiv(
                (self.center_strength as int) * (self.alpha as int) * (degree + 1),
                SCALE as int,
            ),
            0 <= r <= 2_000_000_000_000_000_000,
    {
        proof {
            assert((self.center_strength as int) * (self.alpha as int) <= 1_000_000_000 && 0 <= (
            self.center_strength as int) * (self.alpha as int)) by (nonlinear_arith)
                requires
                    0 <= self.center_strength as int <= 1_000_000,
                    0 <= self.alpha as int <= 1000,
            ;
        }
        let ca: i128 = (self.center_strength as i128) * (self.alpha as i128);
        proof {
            assert((ca as int) * ((degree + 1) as int) <= 2_000_000_000_000_000_000_000 && 0 <= (
            ca as int) * ((degree + 1) as int)) by (nonlinear_arith)
                requires
                    0 <= ca as int <= 1_000_000_000,
                    1 <= (degree + 1) as int <= 2_000_000_000,
            ;
        }
        let cad: i128 = ca * ((degree + 1) as i128);
        let r = tdiv_i128(cad, 1000);
        proof {
            lemma_tdiv_mag(cad as int, 1000, 2_000_000_000_000_000_000_000);
            vstd::arithmetic::div_mod::lemma_div_pos_is_pos(cad as int, 1000);
            vstd::arithmetic::div_mod::lemma_div_is_ordered(
                cad as int,
                2_000_000_000_000_000_000_000,
                1000,
            );
        }
        r
    }

    /// The centering nudge: push each velocity component by the fixed
    /// magnitude, against the sign of the vertex's offset from the tree's
    /// center of mass, clamped like every velocity write.
    fn apply_center_force(&self, v: &SimVertex, root: &OctreeNode, vx1: i64, vy1: i64, vz1: i64)
        -> (r: (i64, i64, i64))
        requires
            self.params_wf(),
            v.in_bounds(),
            -POS_LIMIT <= root.x <= POS_LIMIT,
            -POS_LIMIT <= root.y <= POS_LIMIT,
            -POS_LIMIT <= root.z <= POS_LIMIT,
        ensures
            r.0 as int == clamp_i(
                vx1 + center_term(*v, *root, self.center_strength as int, self.alpha as int).0,
                VEL_LIMIT as int,
            ),
            r.1 as int == clamp_i(
                vy1 + center_term(*v, *root, self.center_strength as int, self.alpha as int).1,
                VEL_LIMIT as int,
            ),
            r.2 as int == clamp_i(
                vz1 + center_term(*v, *root, self.center_strength as int, self.alpha as int).2,
                VEL_LIMIT as int,
            ),
    {
        let m: i128 = self.center_magnitude(v.degree);
        let cvx: i128 = if v.x - root.x > 0 {
            (vx1 as i128) - m
        } else {
            (vx1 as i128) + m
        };
        let cvy: i128 = if v.y - root.y > 0 {
            (vy1 as i128) - m
        } else {
            (vy1 as i128) + m
        };
        let cvz: i128 = if v.z - root.z > 0 {
            (vz1 as i128) - m
        } else {
            (vz1 as i128) + m
        };
        (clamp128(cvx, VEL_LIMIT), clamp128(cvy, VEL_LIMIT), clamp128(cvz, VEL_LIMIT))
    }

    /// Accumulate the repulsive and centering velocity contribution of every
    /// vertex: one worklist walk of the tree per vertex, then the centering
    /// nudge. Each vertex's new velocity is exactly the walk's sum applied
    /// to its old velocity.
    #[verifier::rlimit(100)]
    fn apply_force(&self, vertexes: &mut Vec<SimVertex>)
        requires
            self.params_wf(),
            self.octree.root.finalized(),
            old(vertexes)@.len() <= MAX_VERTICES,
            forall|i: int| 0 <= i < old(vertexes)@.len() ==> (#[trigger] old(
                vertexes,
            )@[i]).in_bounds(),
        ensures
            final(vertexes)@.len() == old(vertexes)@.len(),
            forall|i: int|
                0 <= i < old(vertexes)@.len() ==> final(vertexes)@[i] == vert_after_force(
                    #[trigger] old(vertexes)@[i],
                    i,
                    self.octree.root,
                    self.alpha as int,
                    self.strength as int,
                    self.center_strength as int,
                    self.theta as int,
                ),
            forall|i: int|
                0 <= i < final(vertexes)@.len() ==> (#[trigger] final(vertexes)@[i]).in_bounds(),
    {
        let root: &OctreeNode = &self.octree.root;
        proof {
            lemma_node_count_pos(*root);
            if root.number >= 1 {
                lemma_node_count_bound(*root);
                lemma_depth_bound_world(root.size as int);
                assert(2 * depth_bound(root.size as int) * root.number <= 54 * (
                root.number as int)) by (nonlinear_arith)
                    requires
                        depth_bound(root.size as int) <= 27,
                        root.number >= 1,
                ;
                assert(root.node_count() <= 54 * (root.number as int));
                assert(54 * (root.number as int) <= 54_000_000_000);
            } else {
                lemma_node_count_pos(*root);
                assert(root.children@.len() == 0);
                assert(count_nodes_seq(root.children@) == 0);
                assert(root.node_count() == 1);
            }
        }
        let ghost ncap: int = root.node_count();
        proof {
            assert(1 <= ncap <= 54_000_000_000);
        }
        let ghost a = self.alpha as int;
        let ghost s = self.strength as int;
        let ghost c = self.center_strength as int;
        let ghost theta = self.theta as int;
        let n = vertexes.len();
        let mut i: usize = 0;
        while i < n
            invariant
                i <= n,
                n == vertexes@.len(),
                n == old(vertexes)@.len(),
                n <= MAX_VERTICES,
                self.params_wf(),
                self.octree.root.finalized(),
                root == &self.octree.root,
                1 <= ncap <= 54_000_000_000,
                ncap == root.node_count(),
                a == self.alpha as int,
                s == self.strength as int,
                c == self.center_strength as int,
                theta == self.theta as int,
                forall|k: int|
                    0 <= k < n ==> (#[trigger] old(vertexes)@[k]).in_bounds(),
                forall|k: int|
                    i <= k < n ==> #[trigger] vertexes@[k] == old(vertexes)@[k],
                forall|k: int|
                    0 <= k < i ==> #[trigger] vertexes@[k] == vert_after_force(
                        old(vertexes)@[k],
                        k,
                        self.octree.root,
                        a,
                        s,
                        c,
                        theta,
                    ),
                forall|k: int| 0 <= k < i ==> (#[trigger] vertexes@[k]).in_bounds(),
            decreases n - i,
        {
            let v = vertexes[i];
            let ghost target = bh_vel(*root, i as int, v.x as int, v.y as int, v.z as int, a, s, theta);
            let mut queue: Vec<&OctreeNode> = Vec::new();
            queue.push(root);
            let mut qi: usize = 0;
            let mut accx: i128 = 0;
            let mut accy: i128 = 0;
            let mut accz: i128 = 0;
            proof {
                assert(queue@.drop_first() =~= Seq::<&OctreeNode>::empty());
                assert(queue@.subrange(0, 1) =~= queue@);
                assert(*queue@[0] == self.octree.root);
                assert(nc_sum_q(queue@.drop_first()) == 0);
                assert(nc_sum_q(queue@) == root.node_count());
                assert(bh_sum_q(queue@.drop_first(), i as int, v.x as int, v.y as int, v.z as int, a, s, theta)
                    == (0int, 0int, 0int));
                assert(bh_sum_q(queue@, i as int, v.x as int, v.y as int, v.z as int, a, s, theta).0
                    == target.0);
                assert(bh_sum_q(queue@, i as int, v.x as int, v.y as int, v.z as int, a, s, theta).1
                    == target.1);
                assert(bh_sum_q(queue@, i as int, v.x as int, v.y as int, v.z as int, a, s, theta).2
                    == target.2);
            }
            while qi < queue.len()
                invariant
                    qi <= queue@.len(),
                    self.params_wf(),
                    a == self.alpha as int,
                    s == self.strength as int,
                    theta == self.theta as int,
                    v.in_bounds(),
                    1 <= ncap <= 54_000_000_000,
                    forall|j: int|
                        qi <= j < queue@.len() ==> (*(#[trigger] queue@[j])).finalized(),
                    nc_sum_q(queue@.subrange(qi as int, queue@.len() as int)) + qi as int <= ncap,
                    accx as int + bh_sum_q(
                        queue@.subrange(qi as int, queue@.len() as int),
                        i as int,
                        v.x as int,
                        v.y as int,
                        v.z as int,
                        a,
                        s,
                        theta,
                    ).0 == target.0,
                    accy as int + bh_sum_q(
                        queue@.subrange(qi as int, queue@.len() as int),
                        i as int,
                        v.x as int,
                        v.y as int,
                        v.z as int,
                        a,
                        s,
                        theta,
                    ).1 == target.1,
                    accz as int + bh_sum_q(
                        queue@.subrange(qi as int, queue@.len() as int),
                        i as int,
                        v.x as int,
                        v.y as int,
                        v.z as int,
                        a,
                        s,
                        theta,
                    ).2 == target.2,
                    -(qi as int) * CONTRIB_LIMIT <= accx as int <= (qi as int) * CONTRIB_LIMIT,
                    -(qi as int) * CONTRIB_LIMIT <= accy as int <= (qi as int) * CONTRIB_LIMIT,
                    -(qi as int) * CONTRIB_LIMIT <= accz as int <= (qi as int) * CONTRIB_LIMIT,
                decreases nc_sum_q(queue@.subrange(qi as int, queue@.len() as int)),
            {
                let node: &OctreeNode = queue[qi];
                let ghost rem = queue@.subrange(qi as int, queue@.len() as int);
                proof {
                    assert(rem[0] == queue@[qi as int]);
                    assert(rem.drop_first() =~= queue@.subrange(
                        qi as int + 1,
                        queue@.len() as int,
                    ));
                    lemma_node_count_pos(*node);
                    lemma_count_nodes_nonneg(node.children@);
                    assert(*rem[0] == *node);
                    assert(nc_sum_q(rem) == (*node).node_count() + nc_sum_q(rem.drop_first()));
                    assert((*node).node_count() == 1 + count_nodes_seq(node.children@));
                }
                let ghost tail = queue@.subrange(qi as int + 1, queue@.len() as int);
                qi = qi + 1;
                if node.number == 1 && node.node == i {
                    // the leaf holding this very vertex: no self-force
                    proof {
                        lemma_nc_sum_q_nonneg(tail);
                    }
                } else {
                    let dxc: i64 = v.x - node.cx;
                    let dyc: i64 = v.y - node.cy;
                    let dzc: i64 = v.z - node.cz;
                    proof {
                        assert(dxc * dxc <= 90_000_000_000_000_000 && dxc * dxc >= 0)
                            by (nonlinear_arith)
                            requires
                                -300_000_000 <= dxc <= 300_000_000,
                        ;
                        assert(dyc * dyc <= 90_000_000_000_000_000 && dyc * dyc >= 0)
                            by (nonlinear_arith)
                            requires
                                -300_000_000 <= dyc <= 300_000_000,
                        ;
                        assert(dzc * dzc <= 90_000_000_000_000_000 && dzc * dzc >= 0)
                            by (nonlinear_arith)
                            requires
                                -300_000_000 <= dzc <= 300_000_000,
                        ;
                        assert((node.size as int) * (node.size as int)
                            <= 10_000_000_000_000_000 && 0 <= (node.size as int) * (
                        node.size as int)) by (nonlinear_arith)
                            requires
                                0 <= node.size as int <= 100_000_000,
                        ;
                        assert((node.size as i128 * node.size as i128) * (theta)
                            <= 10_000_000_000_000_000_000_000 && 0 <= (node.size as i128
                            * node.size as i128) * theta) by (nonlinear_arith)
                            requires
                                0 <= (node.size as i128 * node.size as i128) as int
                                    <= 10_000_000_000_000_000,
                                0 <= theta <= 1_000_000,
                        ;
                    }
                    let d2: i64 = dxc * dxc + dyc * dyc + dzc * dzc;
                    let close: bool = (d2 as i128) * (SCALE as i128) < (node.size as i128)
                        * (node.size as i128) * (self.theta as i128);
                    if close && node.number != 1 {
                        // too coarse at this distance: examine the children
                        let ghost qsnap = queue@;
                        let cl = node.children.len();
                        let mut k: usize = 0;
                        while k < cl
                            invariant
                                k <= cl,
                                cl == node.children@.len(),
                                queue@.len() == qsnap.len() + k,
                                forall|j: int|
                                    0 <= j < qsnap.len() ==> #[trigger] queue@[j] == qsnap[j],
                                forall|j: int|
                                    0 <= j < k ==> *(#[trigger] queue@[qsnap.len() + j])
                                        == node.children@[j],
                                node.finalized(),
                            decreases cl - k,
                        {
                            queue.push(&node.children[k]);
                            k = k + 1;
                        }
                        proof {
                            let newrem = queue@.subrange(qi as int, queue@.len() as int);
                            let crefs = queue@.subrange(qsnap.len() as int, queue@.len() as int);
                            assert(tail =~= qsnap.subrange(qi as int, qsnap.len() as int));
                            assert(newrem =~= tail + crefs);
                            assert(crefs.len() == node.children@.len());
                            assert forall|j: int|
                                0 <= j < crefs.len() implies *(#[trigger] crefs[j])
                                    == node.children@[j] by {
                                assert(crefs[j] == queue@[qsnap.len() + j]);
                            }
                            assert forall|j: int|
                                qi <= j < queue@.len() implies (*(
                            #[trigger] queue@[j])).finalized() by {
                                if j < qsnap.len() {
                                    assert(queue@[j] == qsnap[j]);
                                } else {
                                    let jj = j - qsnap.len();
                                    assert(*queue@[qsnap.len() + jj] == node.children@[jj]);
                                }
                            }
                            lemma_q_matches(
                                crefs,
                                node.children@,
                                i as int,
                                v.x as int,
                                v.y as int,
                                v.z as int,
                                a,
                                s,
                                theta,
                            );
                            lemma_q_concat(
                                tail,
                                crefs,
                                i as int,
                                v.x as int,
                                v.y as int,
                                v.z as int,
                                a,
                                s,
                                theta,
                            );
                        }
                    } else {
                        // far enough (or a lone leaf): one aggregate term
                        let t = Self::add_octree_force(node, v.x, v.y, v.z, self.alpha, self.strength);
                        proof {
                            lemma_nc_sum_q_nonneg(tail);
                            assert((qi as int - 1) * CONTRIB_LIMIT + CONTRIB_LIMIT == (qi as int)
                                * CONTRIB_LIMIT) by (nonlinear_arith);
                            assert((qi as int) * CONTRIB_LIMIT <= 54_000_000_000
                                * CONTRIB_LIMIT) by (nonlinear_arith)
                                requires
                                    qi as int <= 54_000_000_000,
                            ;
                        }
                        accx = accx + t.0;
                        accy = accy + t.1;
                        accz = accz + t.2;
                    }
                }
                proof {
                    lemma_nc_sum_q_nonneg(queue@.subrange(qi as int, queue@.len() as int));
                    assert(nc_sum_q(queue@.subrange(qi as int, queue@.len() as int)) < nc_sum_q(
                        rem,
                    ));
                }
            }
            proof {
                assert(queue@.subrange(qi as int, queue@.len() as int) =~= Seq::<
                    &OctreeNode,
                >::empty());
                assert(accx as int == target.0 && accy as int == target.1 && accz as int
                    == target.2);
                assert((qi as int) * CONTRIB_LIMIT <= 54_000_000_000 * CONTRIB_LIMIT)
                    by (nonlinear_arith)
                    requires
                        qi as int <= 54_000_000_000,
                ;
            }
            let vx1: i64 = clamp128((v.vx as i128) + accx, VEL_LIMIT);
            let vy1: i64 = clamp128((v.vy as i128) + accy, VEL_LIMIT);
            let vz1: i64 = clamp128((v.vz as i128) + accz, VEL_LIMIT);
            // the bounded pull toward the tree's center of mass
            let (nvx, nvy, nvz) = self.apply_center_force(&v, root, vx1, vy1, vz1);
            vertexes[i] = SimVertex {
                x: v.x,
                y: v.y,
                z: v.z,
                vx: nvx,
                vy: nvy,
                vz: nvz,
                degree: v.degree,
            };
            i = i + 1;
        }
    }

    /// One attractive displacement `d * fac * common / den`, exact and
    /// bounded.
    fn link_term(d: i64, fac: i64, common: i128, den: i128) -> (r: i128)
        requires
            -400_000_000 <= d <= 400_000_000,
            0 <= fac <= 2_000_000_000,
            -700_000_000_000_000_000 <= common <= 700_000_000_000_000_000,
            1 <= den,
        ensures
            r as int == tdiv((d as int) * (fac as int) * (common as int), den as int),
            -600_000_000_000_000_000_000_000_000_000_000_000 <= r
                <= 600_000_000_000_000_000_000_000_000_000_000_000,
    {
        proof {
            assert(-800_000_000_000_000_000 <= (d as int) * (fac as int)
                <= 800_000_000_000_000_000) by (nonlinear_arith)
                requires
                    -400_000_000 <= d as int <= 400_000_000,
                    0 <= fac as int <= 2_000_000_000,
            ;
        }
        let m: i128 = (d as i128) * (fac as i128);
        proof {
            assert(-600_000_000_000_000_000_000_000_000_000_000_000 <= (m as int) * (common as int)
                <= 600_000_000_000_000_000_000_000_000_000_000_000) by (nonlinear_arith)
                requires
                    -800_000_000_000_000_000 <= m as int <= 800_000_000_000_000_000,
                    -700_000_000_000_000_000 <= common as int <= 700_000_000_000_000_000,
            ;
        }
        let m2: i128 = m * common;
        let r = tdiv_i128(m2, den);
        proof {
            lemma_tdiv_mag(
                m2 as int,
                den as int,
                600_000_000_000_000_000_000_000_000_000_000_000,
            );
        }
        r
    }

    /// Accumulate the attractive velocity contribution of every edge, in
    /// edge order, each step on the velocities the previous steps left (the
    /// semi-implicit update). Self-loops and zero-length edge vectors are
    /// skipped; the cached bias splits the displacement between the two
    /// endpoints.
    #[verifier::rlimit(100)]
    fn apply_link_force(&self, vertexes: &mut Vec<SimVertex>, edges: &Vec<SimEdge>)
        requires
            self.params_wf(),
            edges_valid(edges@, old(vertexes)@.len() as int),
            self.bias@.len() == edges@.len(),
            forall|k: int| 0 <= k < self.bias@.len() ==> (#[trigger] self.bias@[k]).valid(),
            forall|k: int| 0 <= k < old(vertexes)@.len() ==> (#[trigger] old(
                vertexes,
            )@[k]).in_bounds(),
        ensures
            final(vertexes)@.len() == old(vertexes)@.len(),
            final(vertexes)@ == link_pass(
                old(vertexes)@,
                edges@,
                self.bias@,
                self.link_distance as int,
                self.link_strength as int,
                self.alpha as int,
            ),
            forall|k: int|
                0 <= k < final(vertexes)@.len() ==> (#[trigger] final(vertexes)@[k]).in_bounds(),
    {
        let ghost ld = self.link_distance as int;
        let ghost ls = self.link_strength as int;
        let ghost a = self.alpha as int;
        let ne = edges.len();
        let mut j: usize = 0;
        proof {
            assert(edges@.take(0) =~= Seq::<SimEdge>::empty());
            assert(self.bias@.take(0) =~= Seq::<LinkBias>::empty());
        }
        while j < ne
            invariant
                j <= ne,
                ne == edges@.len(),
                self.bias@.len() == ne,
                self.params_wf(),
                ld == self.link_distance as int,
                ls == self.link_strength as int,
                a == self.alpha as int,
                edges_valid(edges@, old(vertexes)@.len() as int),
                vertexes@.len() == old(vertexes)@.len(),
                forall|k: int| 0 <= k < self.bias@.len() ==> (#[trigger] self.bias@[k]).valid(),
                vertexes@ == link_pass(
                    old(vertexes)@,
                    edges@.take(j as int),
                    self.bias@.take(j as int),
                    ld,
                    ls,
                    a,
                ),
                forall|k: int| 0 <= k < vertexes@.len() ==> (#[trigger] vertexes@[k]).in_bounds(),
            decreases ne - j,
        {
            let ghost prev = vertexes@;
            let e = edges[j];
            let b = self.bias[j];
            if e.source != e.target {
                let sv = vertexes[e.source];
                let tv = vertexes[e.target];
                let dx: i64 = (sv.x + sv.vx) - (tv.x + tv.vx);
                let dy: i64 = (sv.y + sv.vy) - (tv.y + tv.vy);
                let dz: i64 = (sv.z + sv.vz) - (tv.z + tv.vz);
                proof {
                    assert(dx * dx <= 160_000_000_000_000_000 && dx * dx >= 0) by (nonlinear_arith)
                        requires
                            -400_000_000 <= dx <= 400_000_000,
                    ;
                    assert(dy * dy <= 160_000_000_000_000_000 && dy * dy >= 0) by (nonlinear_arith)
                        requires
                            -400_000_000 <= dy <= 400_000_000,
                    ;
                    assert(dz * dz <= 160_000_000_000_000_000 && dz * dz >= 0) by (nonlinear_arith)
                        requires
                            -400_000_000 <= dz <= 400_000_000,
                    ;
                }
                let l2: i64 = dx * dx + dy * dy + dz * dz;
                if l2 != 0 {
                    let l: u64 = isqrt_u64(l2 as u64);
                    proof {
                        assert(l as int <= 700_000_000) by (nonlinear_arith)
                            requires
                                (l as int) * (l as int) <= 480_000_000_000_000_000,
                                0 <= l as int,
                        ;
                        assert(l as int >= 1) by (nonlinear_arith)
                            requires
                                (l2 as int) < ((l as int) + 1) * ((l as int) + 1),
                                l2 as int >= 1,
                                l as int >= 0,
                        ;
                    }
                    let li: i64 = l as i64;
                    let lm: i64 = li - self.link_distance;
                    proof {
                        assert(-700_000_000_000_000 <= (lm as int) * (self.link_strength as int)
                            <= 700_000_000_000_000) by (nonlinear_arith)
                            requires
                                -100_000_000 <= lm as int <= 700_000_000,
                                0 <= self.link_strength as int <= 1_000_000,
                        ;
                    }
                    let mls: i128 = (lm as i128) * (self.link_strength as i128);
                    proof {
                        assert(-700_000_000_000_000_000 <= (mls as int) * (self.alpha as int)
                            <= 700_000_000_000_000_000) by (nonlinear_arith)
                            requires
                                -700_000_000_000_000 <= mls as int <= 700_000_000_000_000,
                                0 <= self.alpha as int <= 1000,
                        ;
                    }
                    let common: i128 = mls * (self.alpha as i128);
                    let sfac: i64 = b.den - b.num;
                    proof {
                        assert(1 <= (li as int) * (b.den as int)
                            <= 1_400_000_000_000_000_000) by (nonlinear_arith)
                            requires
                                1 <= li as int <= 700_000_000,
                                1 <= b.den as int <= 2_000_000_000,
                        ;
                    }
                    let den: i128 = ((li as i128) * (b.den as i128)) * 1000 * 1000;
                    let msx: i128 = Self::link_term(dx, sfac, common, den);
                    let msy: i128 = Self::link_term(dy, sfac, common, den);
                    let msz: i128 = Self::link_term(dz, sfac, common, den);
                    let mtx: i128 = Self::link_term(dx, b.num, common, den);
                    let mty: i128 = Self::link_term(dy, b.num, common, den);
                    let mtz: i128 = Self::link_term(dz, b.num, common, den);
                    let sv2 = SimVertex {
                        x: sv.x,
                        y: sv.y,
                        z: sv.z,
                        vx: clamp128((sv.vx as i128) - msx, VEL_LIMIT),
                        vy: clamp128((sv.vy as i128) - msy, VEL_LIMIT),
                        vz: clamp128((sv.vz as i128) - msz, VEL_LIMIT),
                        degree: sv.degree,
                    };
                    let tv2 = SimVertex {
                        x: tv.x,
                        y: tv.y,
                        z: tv.z,
                        vx: clamp128((tv.vx as i128) + mtx, VEL_LIMIT),
                        vy: clamp128((tv.vy as i128) + mty, VEL_LIMIT),
                        vz: clamp128((tv.vz as i128) + mtz, VEL_LIMIT),
                        degree: tv.degree,
                    };
                    vertexes[e.source] = sv2;
                    vertexes[e.target] = tv2;
                    proof {
                        assert(vertexes@ =~= prev.update(e.source as int, sv2).update(
                            e.target as int,
                            tv2,
                        ));
                        assert(vertexes@ == link_step(prev, e, b, ld, ls, a));
                    }
                }
            }
            proof {
                assert(vertexes@ == link_step(prev, e, b, ld, ls, a));
                assert(edges@.take(j + 1).drop_last() =~= edges@.take(j as int));
                assert(self.bias@.take(j + 1).drop_last() =~= self.bias@.take(j as int));
                assert(edges@.take(j + 1).last() == edges@[j as int]);
                assert(self.bias@.take(j + 1).last() == self.bias@[j as int]);
            }
            j = j + 1;
        }
        proof {
            assert(edges@.take(ne as int) =~= edges@);
            assert(self.bias@.take(ne as int) =~= self.bias@);
        }
    }

    /// Recompute the bounding half-extent of all vertex positions; it
    /// becomes the root cube of the next tree build.
    fn calc_max_size(&mut self, vertexes: &Vec<SimVertex>)
        requires
            forall|i: int| 0 <= i < vertexes@.len() ==> (#[trigger] vertexes@[i]).in_bounds(),
        ensures
            final(self).octree.max_size == max_extent(vertexes@),
            0 <= final(self).octree.max_size <= POS_LIMIT,
            final(self).size == 2 * final(self).octree.max_size,
            final(self).octree.root == old(self).octree.root,
            final(self).alpha == old(self).alpha,
            final(self).link_distance == old(self).link_distance,
            final(self).link_strength == old(self).link_strength,
            final(self).theta == old(self).theta,
            final(self).center_strength == old(self).center_strength,
            final(self).strength == old(self).strength,
            final(self).bias@ == old(self).bias@,
    {
        let mut m: i64 = 0;
        let mut i: usize = 0;
        while i < vertexes.len()
            invariant
                i <= vertexes@.len(),
                forall|k: int| 0 <= k < vertexes@.len() ==> (#[trigger] vertexes@[k]).in_bounds(),
                m as int == max_extent(vertexes@.take(i as int)),
                0 <= m <= POS_LIMIT,
            decreases vertexes@.len() - i,
        {
            let v = vertexes[i];
            let ax: i64 = if v.x < 0 {
                -v.x
            } else {
                v.x
            };
            let ay: i64 = if v.y < 0 {
                -v.y
            } else {
                v.y
            };
            let az: i64 = if v.z < 0 {
                -v.z
            } else {
                v.z
            };
            if ax > m {
                m = ax;
            }
            if ay > m {
                m = ay;
            }
            if az > m {
                m = az;
            }
            proof {
                assert(vertexes@.take(i + 1).drop_last() =~= vertexes@.take(i as int));
                assert(vertexes@.take(i + 1).last() == vertexes@[i as int]);
            }
            i = i + 1;
        }
        proof {
            assert(vertexes@.take(vertexes@.len() as int) =~= vertexes@);
        }
        self.octree.max_size = m;
        self.size = 2 * m;
    }

    /// Integrate: every position moves by its accumulated velocity (clamped
    /// to the world box), and every velocity is cleared — no momentum is
    /// kept between ticks.
    fn set_positions(&self, vertexes: &mut Vec<SimVertex>)
        requires
            forall|i: int| 0 <= i < old(vertexes)@.len() ==> (#[trigger] old(
                vertexes,
            )@[i]).in_bounds(),
        ensures
            final(vertexes)@.len() == old(vertexes)@.len(),
            forall|i: int|
                0 <= i < old(vertexes)@.len() ==> final(vertexes)@[i] == settled(
                    #[trigger] old(vertexes)@[i],
                ),
            forall|i: int|
                0 <= i < final(vertexes)@.len() ==> (#[trigger] final(vertexes)@[i]).in_bounds(),
    {
        let n = vertexes.len();
        let mut i: usize = 0;
        while i < n
            invariant
                i <= n,
                n == vertexes@.len(),
                n == old(vertexes)@.len(),
                forall|k: int|
                    0 <= k < n ==> (#[trigger] old(vertexes)@[k]).in_bounds(),
                forall|k: int|
                    i <= k < n ==> #[trigger] vertexes@[k] == old(vertexes)@[k],
                forall|k: int|
                    0 <= k < i ==> #[trigger] vertexes@[k] == settled(old(vertexes)@[k]),
            decreases n - i,
        {
            let v = vertexes[i];
            let sx: i64 = v.x + v.vx;
            let sy: i64 = v.y + v.vy;
            let sz: i64 = v.z + v.vz;
            let nx: i64 = clamp128(sx as i128, POS_LIMIT);
            let ny: i64 = clamp128(sy as i128, POS_LIMIT);
            let nz: i64 = clamp128(sz as i128, POS_LIMIT);
            vertexes[i] = SimVertex { x: nx, y: ny, z: nz, vx: 0, vy: 0, vz: 0, degree: v.degree };
            i = i + 1;
        }
    }

    /// One simulation tick: recompute the bounding extent, rebuild and
    /// finalize the octree over the current positions, accumulate repulsion
    /// and centering per vertex, accumulate attraction per edge, then
    /// integrate positions and clear velocities. The result is exactly the
    /// three passes composed, every coordinate stays in the world box, and no
    /// velocity survives the tick.
    pub fn update(&mut self, vertexes: &mut Vec<SimVertex>, edges: &Vec<SimEdge>, alpha: i64)
        requires
            old(self).params_wf(),
            0 <= alpha <= SCALE,
            old(vertexes)@.len() <= MAX_VERTICES,
            forall|i: int| 0 <= i < old(vertexes)@.len() ==> (#[trigger] old(
                vertexes,
            )@[i]).in_bounds(),
            edges_valid(edges@, old(vertexes)@.len() as int),
            old(self).bias@.len() == edges@.len(),
            forall|k: int| 0 <= k < old(self).bias@.len() ==> (#[trigger] old(
                self,
            ).bias@[k]).valid(),
        ensures
            final(self).alpha == alpha,
            final(self).link_distance == old(self).link_distance,
            final(self).link_strength == old(self).link_strength,
            final(self).theta == old(self).theta,
            final(self).center_strength == old(self).center_strength,
            final(self).strength == old(self).strength,
            final(self).bias@ == old(self).bias@,
            final(self).octree.max_size == max_extent(old(vertexes)@),
            final(self).size == 2 * max_extent(old(vertexes)@),
            final(self).octree.root.finalized(),
            final(self).octree.root.number == old(vertexes)@.len(),
            final(self).octree.root.pts@ == points_of(old(vertexes)@),
            final(self).octree.root.size == max_extent(old(vertexes)@),
            final(self).octree.root.cx == 0,
            final(self).octree.root.cy == 0,
            final(self).octree.root.cz == 0,
            final(vertexes)@.len() == old(vertexes)@.len(),
            final(vertexes)@ == tick_model(
                old(vertexes)@,
                edges@,
                old(self).bias@,
                final(self).octree.root,
                alpha as int,
                old(self).link_distance as int,
                old(self).link_strength as int,
                old(self).strength as int,
                old(self).center_strength as int,
                old(self).theta as int,
            ),
            forall|i: int|
                0 <= i < final(vertexes)@.len() ==> (#[trigger] final(vertexes)@[i]).in_bounds(),
            forall|i: int|
                0 <= i < final(vertexes)@.len() ==> (#[trigger] final(vertexes)@[i]).vx == 0
                    && final(vertexes)@[i].vy == 0 && final(vertexes)@[i].vz == 0,
    {
        let ghost a = alpha as int;
        let ghost s = self.strength as int;
        let ghost c = self.center_strength as int;
        let ghost theta = self.theta as int;
        let ghost ld = self.link_distance as int;
        let ghost ls = self.link_strength as int;
        self.alpha = alpha;
        self.calc_max_size(vertexes);
        self.octree.build(vertexes);
        let ghost vs0 = vertexes@;
        self.apply_force(vertexes);
        proof {
            assert(vertexes@ =~= force_pass(vs0, self.octree.root, a, s, c, theta));
        }
        self.apply_link_force(vertexes, edges);
        let ghost vs2 = vertexes@;
        self.set_positions(vertexes);
        proof {
            assert(vertexes@ =~= settle_pass(vs2));
            assert(forall|i: int|
                0 <= i < vertexes@.len() ==> (#[trigger] vertexes@[i]) == settled(vs2[i]));
        }
    }
}

/// The repulsion-and-centering pass applied to every vertex.
pub open spec fn force_pass(
    vs: Seq<SimVertex>,
    root: OctreeNode,
    a: int,
    s: int,
    c: int,
    theta: int,
) -> Seq<SimVertex> {
    Seq::new(vs.len(), |i: int| vert_after_force(vs[i], i, root, a, s, c, theta))
}

/// The integration pass applied to every vertex.
pub open spec fn settle_pass(vs: Seq<SimVertex>) -> Seq<SimVertex> {
    Seq::new(vs.len(), |i: int| settled(vs[i]))
}

/// One whole tick: repulsion and centering per vertex on the finalized tree,
/// then the attractive pass over the edges, then integration.
pub open spec fn tick_model(
    vs: Seq<SimVertex>,
    es: Seq<SimEdge>,
    bs: Seq<LinkBias>,
    root: OctreeNode,
    a: int,
    ld: int,
    ls: int,
    s: int,
    c: int,
    theta: int,
) -> Seq<SimVertex> {
    settle_pass(link_pass(force_pass(vs, root, a, s, c, theta), es, bs, ld, ls, a))
}

/// Bias asymmetry: along an edge whose source degree is at least the target
/// degree (so the bias is at least one half), the target — the endpoint of
/// lower degree — receives an attractive displacement at least as large in
/// magnitude as the source's, for the same edge vector component `d`, scale
/// factor `c` and divisor `den` that `link_step` uses.
pub proof fn lemma_bias_asymmetry(d: int, b: LinkBias, c: int, den: int)
    requires
        b.valid(),
        b.den - b.num <= b.num,
        den >= 1,
    ensures
        abs_i(tdiv(d * (b.den - b.num) * c, den)) <= abs_i(tdiv(d * b.num * c, den)),
{
    let sf = b.den - b.num;
    let nf = b.num as int;
    let g = d * c;
    assert(d * sf * c == sf * g) by (nonlinear_arith)
        requires
            g == d * c,
    ;
    assert(d * nf * c == nf * g) by (nonlinear_arith)
        requires
            g == d * c,
    ;
    if g >= 0 {
        assert(0 <= sf * g <= nf * g) by (nonlinear_arith)
            requires
                0 <= sf <= nf,
                g >= 0,
        ;
    } else {
        assert(nf * g <= sf * g <= 0) by (nonlinear_arith)
            requires
                0 <= sf <= nf,
                g < 0,
        ;
    }
    lemma_tdiv_abs_ordered(d * sf * c, d * nf * c, den);
}

/// Strict bias asymmetry. Truncating division can make the two endpoint
/// displacements tie — both quotients can round to the same value, for
/// example both to zero — so strictness needs a gap: when the difference of
/// the two numerators spans at least one whole divisor, the lower-degree
/// endpoint is displaced strictly more.
pub proof fn lemma_bias_asymmetry_strict(d: int, b: LinkBias, c: int, den: int)
    requires
        b.valid(),
        b.den - b.num <= b.num,
        den >= 1,
        (2 * b.num - b.den) * abs_i(d * c) >= den,
    ensures
        abs_i(tdiv(d * (b.den - b.num) * c, den)) < abs_i(tdiv(d * b.num * c, den)),
{
    let sf = b.den - b.num;
    let nf = b.num as int;
    let g = d * c;
    assert(d * sf * c == sf * g) by (nonlinear_arith)
        requires
            g == d * c,
    ;
    assert(d * nf * c == nf * g) by (nonlinear_arith)
        requires
            g == d * c,
    ;
    let m1 = abs_i(sf * g);
    let m2 = abs_i(nf * g);
    if g >= 0 {
        assert(0 <= sf * g && 0 <= nf * g && sf * g + (nf - sf) * g == nf * g && (nf - sf) * g
            >= den) by (nonlinear_arith)
            requires
                0 <= sf <= nf,
                g >= 0,
                (nf - sf) * g >= den,
        ;
    } else {
        assert(sf * g <= 0 && nf * g <= 0 && -(nf * g) == -(sf * g) + (nf - sf) * (-g) && (nf - sf)
            * (-g) >= den) by (nonlinear_arith)
            requires
                0 <= sf <= nf,
                g < 0,
                (nf - sf) * (-g) >= den,
        ;
    }
    assert(m1 + den <= m2);
    vstd::arithmetic::div_mod::lemma_div_plus_one(m1, den);
    vstd::arithmetic::div_mod::lemma_div_is_ordered(den + m1, m2, den);
    lemma_tdiv_abs_eq(sf * g, den);
    lemma_tdiv_abs_eq(nf * g, den);
}

/// The attractive step pulls a too-long edge together, never apart: on an
/// edge at least as long as the target distance, the displacement that
/// `link_step` subtracts from the source's velocity (and adds to the
/// target's) carries the sign of the edge vector component, so neither
/// endpoint is pushed away from the other. How close one whole tick brings
/// the separation to the target also depends on the repulsive and centering
/// nudges, which push the other way; a pair only slightly longer than the
/// target can therefore still drift apart, so the single-tick approach is
/// exercised as a scenario rather than stated for every separation.
pub proof fn lemma_link_step_attracts(
    d: int,
    fac: int,
    l: int,
    ld: int,
    ls: int,
    a: int,
    den: int,
)
    requires
        l >= ld,
        0 <= fac,
        0 <= ls,
        0 <= a,
        den >= 1,
    ensures
        d >= 0 ==> tdiv(d * fac * ((l - ld) * ls * a), den) >= 0,
        d <= 0 ==> tdiv(d * fac * ((l - ld) * ls * a), den) <= 0,
{
    let c = (l - ld) * ls * a;
    assert(c >= 0) by (nonlinear_arith)
        requires
            l - ld >= 0,
            0 <= ls,
            0 <= a,
            c == (l - ld) * ls * a,
    ;
    if d >= 0 {
        assert(d * fac * c >= 0) by (nonlinear_arith)
            requires
                d >= 0,
                fac >= 0,
                c >= 0,
        ;
        vstd::arithmetic::div_mod::lemma_div_pos_is_pos(d * fac * c, den);
    }
    if d <= 0 {
        assert(d * fac * c <= 0) by (nonlinear_arith)
            requires
                d <= 0,
                fac >= 0,
                c >= 0,
        ;
        vstd::arithmetic::div_mod::lemma_div_pos_is_pos(-(d * fac * c), den);
        if d * fac * c == 0 {
            vstd::arithmetic::div_mod::lemma_div_nonincreasing(d * fac * c, den);
        }
    }
}

/// Opening-angle equivalence at the leaves: a leaf node contributes the same
/// repulsive term whatever the opening angle is, since both the close and
/// the far branch take the direct pairwise term. The opening angle therefore
/// only redistributes which internal aggregates stand in for their leaves.
pub proof fn lemma_leaf_theta_independent(
    node: OctreeNode,
    i: int,
    px: int,
    py: int,
    pz: int,
    a: int,
    s: int,
    t1: int,
    t2: int,
)
    requires
        node.number == 1,
    ensures
        bh_vel(node, i, px, py, pz, a, s, t1) == bh_vel(node, i, px, py, pz, a, s, t2),
{
}

} // verus!
