//! Shared data model of the layout engine.
//!
//! Positions, velocities and all tuning parameters are fixed-point integers:
//! one distance unit of the layout is `SCALE` integer units, and a parameter
//! value `p` stands for the ratio `p / SCALE`. This keeps every quantity a
//! machine integer, so a simulation tick can never produce an undefined
//! value; out-of-range intermediate results are clamped, never propagated.

use vstd::prelude::*;

verus! {

/// Fixed-point denominator: parameter value `p` means `p / SCALE`.
pub const SCALE: i64 = 1000;

/// Largest magnitude a position coordinate may take (the world box).
pub const POS_LIMIT: i64 = 100_000_000;

/// Largest magnitude a velocity coordinate may take.
pub const VEL_LIMIT: i64 = 100_000_000;

/// Largest number of vertices one simulation handles.
pub const MAX_VERTICES: usize = 1_000_000;

/// Largest value accepted for a strength or opening-angle parameter.
pub const MAX_STRENGTH: i64 = 1_000_000;

/// Largest degree a vertex may report.
pub const MAX_DEGREE: i64 = 1_000_000_000;

/// A vertex as the simulator sees it: a 3D position, a 3D velocity
/// accumulator that is cleared at the end of every tick, and the cached
/// degree. Its index in the surrounding vector is its identity.
#[derive(Clone, Copy)]
pub struct SimVertex {
    pub x: i64,
    pub y: i64,
    pub z: i64,
    pub vx: i64,
    pub vy: i64,
    pub vz: i64,
    pub degree: i64,
}

/// An edge between two vertex indices. Self-loops are permitted in the data
/// and skipped by the attractive force.
#[derive(Clone, Copy)]
pub struct SimEdge {
    pub source: usize,
    pub target: usize,
}

/// The per-edge bias kept as an exact rational `num / den`:
/// `num` is the source degree, `den` the sum of both endpoint degrees.
#[derive(Clone, Copy)]
pub struct LinkBias {
    pub num: i64,
    pub den: i64,
}

impl SimVertex {
    /// Every coordinate within the world box, every velocity within its
    /// limit, degree in range: the condition each tick preserves.
    pub open spec fn in_bounds(self) -> bool {
        &&& -POS_LIMIT <= self.x <= POS_LIMIT
        &&& -POS_LIMIT <= self.y <= POS_LIMIT
        &&& -POS_LIMIT <= self.z <= POS_LIMIT
        &&& -VEL_LIMIT <= self.vx <= VEL_LIMIT
        &&& -VEL_LIMIT <= self.vy <= VEL_LIMIT
        &&& -VEL_LIMIT <= self.vz <= VEL_LIMIT
        &&& 0 <= self.degree <= MAX_DEGREE
    }
}

impl LinkBias {
    /// A valid bias is a rational in `[0, 1]` with positive denominator.
    pub open spec fn valid(self) -> bool {
        &&& 1 <= self.den <= 2 * MAX_DEGREE
        &&& 0 <= self.num <= self.den
    }
}

/// Every edge endpoint is an index into the vertex list.
pub open spec fn edges_valid(es: Seq<SimEdge>, n: int) -> bool {
    forall|i: int|
        0 <= i < es.len() ==> (#[trigger] es[i]).source < n && es[i].target < n
}

/// A point recorded while the spatial index is built: the vertex index and
/// the raw coordinates it was inserted with.
pub ghost struct GPoint {
    pub idx: int,
    pub x: int,
    pub y: int,
    pub z: int,
}

impl GPoint {
    pub open spec fn in_box(self) -> bool {
        &&& -POS_LIMIT <= self.x <= POS_LIMIT
        &&& -POS_LIMIT <= self.y <= POS_LIMIT
        &&& -POS_LIMIT <= self.z <= POS_LIMIT
        &&& 0 <= self.idx < MAX_VERTICES
    }
}

/// Sum of the `x` coordinates of a point sequence.
pub open spec fn sum_px(pts: Seq<GPoint>) -> int
    decreases pts.len(),
{
    if pts.len() == 0 {
        0
    } else {
        sum_px(pts.drop_last()) + pts.last().x
    }
}

/// Sum of the `y` coordinates of a point sequence.
pub open spec fn sum_py(pts: Seq<GPoint>) -> int
    decreases pts.len(),
{
    if pts.len() == 0 {
        0
    } else {
        sum_py(pts.drop_last()) + pts.last().y
    }
}

/// Sum of the `z` coordinates of a point sequence.
pub open spec fn sum_pz(pts: Seq<GPoint>) -> int
    decreases pts.len(),
{
    if pts.len() == 0 {
        0
    } else {
        sum_pz(pts.drop_last()) + pts.last().z
    }
}

pub open spec fn all_in_box(pts: Seq<GPoint>) -> bool {
    forall|i: int| 0 <= i < pts.len() ==> (#[trigger] pts[i]).in_box()
}

/// A coordinate sum over `n` boxed points stays within `n * POS_LIMIT`.
pub proof fn lemma_sum_bounds(pts: Seq<GPoint>)
    requires
        all_in_box(pts),
    ensures
        -(pts.len() * POS_LIMIT) <= sum_px(pts) <= pts.len() * POS_LIMIT,
        -(pts.len() * POS_LIMIT) <= sum_py(pts) <= pts.len() * POS_LIMIT,
        -(pts.len() * POS_LIMIT) <= sum_pz(pts) <= pts.len() * POS_LIMIT,
    decreases pts.len(),
{
    if pts.len() > 0 {
        assert(all_in_box(pts.drop_last())) by {
            assert(forall|i: int|
                0 <= i < pts.drop_last().len() ==> pts.drop_last()[i] == pts[i]);
        }
        lemma_sum_bounds(pts.drop_last());
        assert(pts.last().in_box());
    }
}

} // verus!
