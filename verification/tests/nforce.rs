use rs_algos::math::isqrt_u64;
use rs_algos::model::{SimEdge, SimVertex, POS_LIMIT, VEL_LIMIT};
use rs_algos::nforce_3d::NForce;

fn vert(x: i64, y: i64, z: i64, degree: i64) -> SimVertex {
    SimVertex { x, y, z, vx: 0, vy: 0, vz: 0, degree }
}

fn edge(source: usize, target: usize) -> SimEdge {
    SimEdge { source, target }
}

/// The three-vertex graph the engine's scenarios use: edges a-b and a-c,
/// so degree(a) = 2 and degree(b) = degree(c) = 1.
fn abc_graph() -> (Vec<SimVertex>, Vec<SimEdge>) {
    let vertexes = vec![
        vert(1_000, 0, 100, 2),
        vert(0, 0, 200, 1),
        vert(100, 0, 500, 1),
    ];
    let edges = vec![edge(0, 1), edge(0, 2)];
    (vertexes, edges)
}

fn assert_finite(vertexes: &Vec<SimVertex>) {
    for v in vertexes {
        assert!(-POS_LIMIT <= v.x && v.x <= POS_LIMIT);
        assert!(-POS_LIMIT <= v.y && v.y <= POS_LIMIT);
        assert!(-POS_LIMIT <= v.z && v.z <= POS_LIMIT);
        assert!(-VEL_LIMIT <= v.vx && v.vx <= VEL_LIMIT);
        assert!(-VEL_LIMIT <= v.vy && v.vy <= VEL_LIMIT);
        assert!(-VEL_LIMIT <= v.vz && v.vz <= VEL_LIMIT);
    }
}

#[test]
fn test_nforce_3d() {
    let (mut vertexes, edges) = abc_graph();
    let mut nforce = NForce::new();
    nforce.calc_link_bias(&vertexes, &edges);
    let mut t: i64 = 100;
    loop {
        nforce.update(&mut vertexes, &edges, t);
        // every coordinate must stay a finite in-range value
        assert_finite(&vertexes);
        for v in &vertexes {
            assert_eq!(v.vx, 0);
            assert_eq!(v.vy, 0);
            assert_eq!(v.vz, 0);
        }
        if t > 900 {
            break;
        }
        t += 100;
    }
}

#[test]
fn test_many_ticks_stay_finite() {
    let (mut vertexes, edges) = abc_graph();
    let mut nforce = NForce::new();
    nforce.calc_link_bias(&vertexes, &edges);
    for _ in 0..50 {
        nforce.update(&mut vertexes, &edges, 1_000);
        assert_finite(&vertexes);
    }
}

#[test]
fn test_bias_values() {
    let (vertexes, edges) = abc_graph();
    let mut nforce = NForce::new();
    let bias = nforce.calc_link_bias(&vertexes, &edges);
    assert_eq!(bias.len(), 2);
    // bias of a-b is degree(a) / (degree(a) + degree(b)) = 2/3, exactly
    assert_eq!(bias[0].num, 2);
    assert_eq!(bias[0].den, 3);
    assert_eq!(bias[1].num, 2);
    assert_eq!(bias[1].den, 3);
    let again = nforce.get_bias();
    assert_eq!(again.len(), 2);
    assert_eq!(again[0].num, 2);
    assert_eq!(again[0].den, 3);
}

#[test]
fn test_lower_degree_endpoint_moves_more() {
    // one edge whose source has the higher degree: the source must end up
    // displaced less than the target under the same link force
    let mut vertexes = vec![vert(100_000, 0, 0, 2), vert(-100_000, 0, 0, 1)];
    let edges = vec![edge(0, 1)];
    let mut nforce = NForce::new();
    nforce.calc_link_bias(&vertexes, &edges);
    let xa0 = vertexes[0].x;
    let xb0 = vertexes[1].x;
    nforce.update(&mut vertexes, &edges, 500);
    let da = (vertexes[0].x - xa0).abs();
    let db = (vertexes[1].x - xb0).abs();
    assert!(db > da);
}

#[test]
fn test_single_tick_moves_toward_link_distance() {
    // two vertices farther apart than the target link distance approach it
    let mut vertexes = vec![vert(100_000, 0, 0, 1), vert(-100_000, 0, 0, 1)];
    let edges = vec![edge(0, 1)];
    let mut nforce = NForce::new();
    nforce.calc_link_bias(&vertexes, &edges);
    let sep0 = vertexes[0].x - vertexes[1].x;
    assert!(sep0 > nforce.link_distance);
    nforce.update(&mut vertexes, &edges, 500);
    let sep1 = vertexes[0].x - vertexes[1].x;
    assert!(sep1 < sep0);
    assert!(sep1 >= nforce.link_distance);
}

#[test]
fn test_opening_angle_equivalence() {
    // a huge opening angle descends to every leaf; a zero angle treats the
    // whole tree as one aggregate; for a small sparse graph the two runs
    // must agree within a small tolerance
    let make = || {
        vec![
            vert(50_000_000, 0, 0, 2),
            vert(-50_000_000, 0, 0, 1),
            vert(0, 40_000_000, 0, 1),
        ]
    };
    let edges = vec![edge(0, 1), edge(0, 2)];
    let mut exact = make();
    let mut coarse = make();
    let mut nf_exact = NForce::new();
    nf_exact.theta = 1_000_000;
    nf_exact.calc_link_bias(&exact, &edges);
    nf_exact.update(&mut exact, &edges, 1_000);
    let mut nf_coarse = NForce::new();
    nf_coarse.theta = 0;
    nf_coarse.calc_link_bias(&coarse, &edges);
    nf_coarse.update(&mut coarse, &edges, 1_000);
    for k in 0..exact.len() {
        assert!((exact[k].x - coarse[k].x).abs() <= 10);
        assert!((exact[k].y - coarse[k].y).abs() <= 10);
        assert!((exact[k].z - coarse[k].z).abs() <= 10);
    }
}

#[test]
fn test_update_tracks_extent() {
    let (mut vertexes, edges) = abc_graph();
    let mut nforce = NForce::new();
    nforce.calc_link_bias(&vertexes, &edges);
    nforce.update(&mut vertexes, &edges, 1_000);
    // the tree was built over the positions the tick started from
    assert_eq!(nforce.octree.max_size, 1_000);
    assert_eq!(nforce.size, 2_000);
    assert_eq!(nforce.octree.root.number, 3);
}

#[test]
fn test_empty_graph_tick() {
    let mut vertexes: Vec<SimVertex> = Vec::new();
    let edges: Vec<SimEdge> = Vec::new();
    let mut nforce = NForce::new();
    nforce.calc_link_bias(&vertexes, &edges);
    nforce.update(&mut vertexes, &edges, 1_000);
    assert!(vertexes.is_empty());
    assert_eq!(nforce.octree.root.number, 0);
}

#[test]
fn test_self_loop_is_skipped() {
    // a self-loop contributes no attractive force: the run matches one
    // without any edge
    let mut with_loop = vec![vert(10_000, 5_000, -2_000, 2), vert(-4_000, 0, 1_000, 0)];
    let mut without = with_loop.clone();
    let loop_edges = vec![edge(0, 0)];
    let no_edges: Vec<SimEdge> = Vec::new();
    let mut nf1 = NForce::new();
    nf1.calc_link_bias(&with_loop, &loop_edges);
    nf1.update(&mut with_loop, &loop_edges, 800);
    let mut nf2 = NForce::new();
    nf2.calc_link_bias(&without, &no_edges);
    nf2.update(&mut without, &no_edges, 800);
    for k in 0..with_loop.len() {
        assert_eq!(with_loop[k].x, without[k].x);
        assert_eq!(with_loop[k].y, without[k].y);
        assert_eq!(with_loop[k].z, without[k].z);
    }
}

#[test]
fn test_zero_length_edge_is_skipped() {
    // coincident endpoints have no defined direction: the link force skips
    // the edge and the tick still completes
    let mut vertexes = vec![vert(3_000, 3_000, 3_000, 1), vert(3_000, 3_000, 3_000, 1)];
    let edges = vec![edge(0, 1)];
    let mut nforce = NForce::new();
    nforce.calc_link_bias(&vertexes, &edges);
    nforce.update(&mut vertexes, &edges, 1_000);
    assert_finite(&vertexes);
}

#[test]
fn test_defaults() {
    let nforce = NForce::new();
    assert_eq!(nforce.alpha, 1_000);
    assert_eq!(nforce.link_distance, 100_000);
    assert_eq!(nforce.link_strength, 100);
    assert_eq!(nforce.theta, 1_000);
    assert_eq!(nforce.strength, 40_000);
    assert!(nforce.get_bias().is_empty());
}

#[test]
fn test_isqrt_values() {
    assert_eq!(isqrt_u64(0), 0);
    assert_eq!(isqrt_u64(1), 1);
    assert_eq!(isqrt_u64(3), 1);
    assert_eq!(isqrt_u64(4), 2);
    assert_eq!(isqrt_u64(99), 9);
    assert_eq!(isqrt_u64(100), 10);
    assert_eq!(isqrt_u64(480_000_000_000_000_000), 692_820_323);
}

#[test]
fn test_center_nudge_exact() {
    // a single vertex coincides with the tree's center of mass: no repulsion
    // (its own leaf is skipped), only the centering nudge of
    // center_strength * alpha * (degree + 1) / 1000 = 10 on each axis
    let mut vertexes = vec![vert(5_000, 0, 0, 0)];
    let edges: Vec<SimEdge> = Vec::new();
    let mut nforce = NForce::new();
    nforce.calc_link_bias(&vertexes, &edges);
    nforce.update(&mut vertexes, &edges, 1_000);
    assert_eq!(vertexes[0].x, 5_010);
    assert_eq!(vertexes[0].y, 10);
    assert_eq!(vertexes[0].z, 10);
}
