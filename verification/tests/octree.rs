use rs_algos::model::SimVertex;
use rs_algos::octree::{Octree, OctreeNode};

fn vert(x: i64, y: i64, z: i64) -> SimVertex {
    SimVertex { x, y, z, vx: 0, vy: 0, vz: 0, degree: 0 }
}

/// Every internal node's children must account for exactly its point count.
fn check_level_sums(node: &OctreeNode) {
    if !node.children.is_empty() {
        let mut total: usize = 0;
        for child in &node.children {
            assert!(child.number >= 1);
            total += child.number;
        }
        assert_eq!(total, node.number);
        for child in &node.children {
            check_level_sums(child);
        }
    }
}

#[test]
fn test_mass_conservation() {
    let mut tree = Octree::new();
    tree.max_size = 1_000_000;
    let vertexes = vec![
        vert(500_000, 500_000, 500_000),
        vert(-500_000, 400_000, 200_000),
        vert(300_000, -700_000, 100_000),
        vert(-100_000, -200_000, -300_000),
        vert(250_000, 250_000, -900_000),
    ];
    tree.build(&vertexes);
    assert_eq!(tree.root.number, 5);
    check_level_sums(&tree.root);
}

#[test]
fn test_center_of_mass_pair() {
    let mut tree = Octree::new();
    tree.max_size = 20_000;
    let vertexes = vec![vert(2_000, 4_000, 6_000), vert(4_000, 8_000, 10_000)];
    tree.build(&vertexes);
    assert_eq!(tree.root.number, 2);
    assert_eq!(tree.root.x, 3_000);
    assert_eq!(tree.root.y, 6_000);
    assert_eq!(tree.root.z, 8_000);
}

#[test]
fn test_coincident_points_terminate() {
    let mut tree = Octree::new();
    tree.max_size = 16;
    let vertexes = vec![vert(7, 7, 7), vert(7, 7, 7)];
    tree.build(&vertexes);
    assert_eq!(tree.root.number, 2);
    // walk to the terminal bucket: every node on the way holds both points
    let mut node = &tree.root;
    while !node.children.is_empty() {
        assert_eq!(node.number, 2);
        assert_eq!(node.children.len(), 1);
        node = &node.children[0];
    }
    assert_eq!(node.number, 2);
}

#[test]
fn test_zero_extent_tree_is_bucket() {
    // all points at the origin with a zero half-extent: no subdivision at all
    let mut tree = Octree::new();
    tree.max_size = 0;
    let vertexes = vec![vert(0, 0, 0), vert(0, 0, 0), vert(0, 0, 0)];
    tree.build(&vertexes);
    assert_eq!(tree.root.number, 3);
    assert!(tree.root.children.is_empty());
    assert_eq!(tree.root.x, 0);
}

#[test]
fn test_single_vertex_leaf() {
    let mut tree = Octree::new();
    tree.max_size = 1_000;
    let vertexes = vec![vert(11, -22, 33)];
    tree.build(&vertexes);
    assert_eq!(tree.root.number, 1);
    assert_eq!(tree.root.node, 0);
    assert!(tree.root.children.is_empty());
    assert_eq!(tree.root.x, 11);
    assert_eq!(tree.root.y, -22);
    assert_eq!(tree.root.z, 33);
}

#[test]
fn test_empty_tree() {
    let mut tree = Octree::new();
    tree.max_size = 100;
    let vertexes: Vec<SimVertex> = Vec::new();
    tree.build(&vertexes);
    assert_eq!(tree.root.number, 0);
    assert!(tree.root.children.is_empty());
}

#[test]
fn test_truncated_average() {
    // the center of mass is the truncated average of the coordinate sums
    let mut tree = Octree::new();
    tree.max_size = 1_000;
    let vertexes = vec![vert(1, 0, -1), vert(2, 1, -2), vert(4, 1, -6)];
    tree.build(&vertexes);
    assert_eq!(tree.root.number, 3);
    assert_eq!(tree.root.x, 2); // 7 / 3 truncated
    assert_eq!(tree.root.y, 0); // 2 / 3 truncated
    assert_eq!(tree.root.z, -3); // -9 / 3
}
