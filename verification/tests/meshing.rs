use proctree::branch::{generate_tree, TreeConfig, TreeNode};
use proctree::field::ConstNoise;
use proctree::mesh::{create_tree_mesh, generate_tree_mesh, LeafMesh, MeshConfig, TrunkMesh, Uv};
use proctree::random::{ScriptRandom, StdRandom};
use proctree::vec3::V3;

fn count_edges(node: &TreeNode) -> u64 {
    if node.is_leaf {
        0
    } else {
        node.children
            .iter()
            .map(|c| 1 + count_edges(c))
            .sum()
    }
}

fn count_leaves(node: &TreeNode) -> u64 {
    if node.is_leaf {
        1
    } else {
        node.children.iter().map(count_leaves).sum()
    }
}

fn check_indices(indices: &[u64], vertex_count: usize) {
    for &ix in indices {
        assert!((ix as usize) < vertex_count);
    }
}

fn to_f64(v: &V3) -> [f64; 3] {
    [v.x as f64, v.y as f64, v.z as f64]
}

fn sub(a: [f64; 3], b: [f64; 3]) -> [f64; 3] {
    [a[0] - b[0], a[1] - b[1], a[2] - b[2]]
}

fn cross(a: [f64; 3], b: [f64; 3]) -> [f64; 3] {
    [
        a[1] * b[2] - a[2] * b[1],
        a[2] * b[0] - a[0] * b[2],
        a[0] * b[1] - a[1] * b[0],
    ]
}

fn dot(a: [f64; 3], b: [f64; 3]) -> f64 {
    a[0] * b[0] + a[1] * b[1] + a[2] * b[2]
}

/// Dot of each triangle's geometric normal with its first vertex's stored
/// normal, for every triangle of a mesh.
fn face_dots(positions: &[V3], normals: &[V3], indices: &[u64]) -> Vec<f64> {
    let mut out = Vec::new();
    for tri in indices.chunks(3) {
        let (a, b, c) = (tri[0] as usize, tri[1] as usize, tri[2] as usize);
        let e1 = sub(to_f64(&positions[b]), to_f64(&positions[a]));
        let e2 = sub(to_f64(&positions[c]), to_f64(&positions[a]));
        out.push(dot(cross(e1, e2), to_f64(&normals[a])));
    }
    out
}

#[test]
fn depth_zero_round_trip() {
    let mut cfg = TreeConfig::standard();
    cfg.max_depth = 0;
    let mcfg = MeshConfig::standard();
    let mut rng = ScriptRandom::from_script(vec![]);
    let noise = ConstNoise::new(0);
    let (tree, trunk, leaf) = generate_tree_mesh(&mut rng, &noise, &cfg, &mcfg).unwrap();
    assert!(tree.is_leaf);
    assert_eq!(trunk.positions.len(), 0);
    assert_eq!(trunk.normals.len(), 0);
    assert_eq!(trunk.indices.len(), 0);
    assert_eq!(leaf.positions.len(), 4);
    assert_eq!(leaf.normals.len(), 4);
    assert_eq!(leaf.uvs.len(), 4);
    assert_eq!(leaf.indices.len(), 6);
    // the quad of an up-facing root leaf, half-size 0.2
    assert_eq!(leaf.positions[0], V3 { x: 200, y: 0, z: 200 });
    assert_eq!(leaf.positions[1], V3 { x: -200, y: 0, z: 200 });
    assert_eq!(leaf.positions[2], V3 { x: -200, y: 0, z: -200 });
    assert_eq!(leaf.positions[3], V3 { x: 200, y: 0, z: -200 });
    for n in &leaf.normals {
        assert_eq!(*n, V3 { x: 0, y: 1000, z: 0 });
    }
    assert_eq!(leaf.uvs[0], Uv { u: 0, v: 0 });
    assert_eq!(leaf.uvs[1], Uv { u: 1000, v: 0 });
    assert_eq!(leaf.uvs[2], Uv { u: 1000, v: 1000 });
    assert_eq!(leaf.uvs[3], Uv { u: 0, v: 1000 });
    assert_eq!(leaf.indices, vec![0, 2, 1, 0, 3, 2]);
}

#[test]
fn single_branch_meshes() {
    // depth one, branch count forced to one by a zero draw script
    let mut cfg = TreeConfig::standard();
    cfg.max_depth = 1;
    let mcfg = MeshConfig::standard();
    let mut rng = ScriptRandom::from_script(vec![0, 0, 0, 0]);
    let noise = ConstNoise::new(0);
    let (tree, trunk, leaf) = generate_tree_mesh(&mut rng, &noise, &cfg, &mcfg).unwrap();
    assert_eq!(tree.children.len(), 1);
    // one tapered frustum segment: 2 * (8 + 1) vertices, 2 * 8 triangles
    assert_eq!(trunk.positions.len(), 18);
    assert_eq!(trunk.normals.len(), 18);
    assert_eq!(trunk.indices.len(), 48);
    // one leaf quad
    assert_eq!(leaf.positions.len(), 4);
    assert_eq!(leaf.indices.len(), 6);
    check_indices(&trunk.indices, trunk.positions.len());
    check_indices(&leaf.indices, leaf.positions.len());
}

#[test]
fn buffer_sizing_matches_graph() {
    let cfg = TreeConfig::standard();
    let mcfg = MeshConfig::standard();
    let noise = ConstNoise::new(600);
    let mut rng = StdRandom::from_seed(2024);
    let tree = generate_tree(&mut rng, &noise, &cfg).unwrap();
    let (trunk, leaf) = create_tree_mesh(&tree, &mcfg);
    let edges = count_edges(&tree) as usize;
    let leaves = count_leaves(&tree) as usize;
    let n = mcfg.segments as usize;
    assert_eq!(trunk.positions.len(), 2 * (n + 1) * edges);
    assert_eq!(trunk.normals.len(), trunk.positions.len());
    assert_eq!(trunk.indices.len(), 6 * n * edges);
    assert_eq!(leaf.positions.len(), 4 * leaves);
    assert_eq!(leaf.normals.len(), leaf.positions.len());
    assert_eq!(leaf.uvs.len(), leaf.positions.len());
    assert_eq!(leaf.indices.len(), 6 * leaves);
}

#[test]
fn sizing_holds_for_other_segment_counts() {
    let cfg = TreeConfig::standard();
    let noise = ConstNoise::new(-250);
    for segments in [1u64, 3, 16, 64] {
        let mcfg = MeshConfig { segments, leaf_half: 150 };
        let mut rng = StdRandom::from_seed(555);
        let tree = generate_tree(&mut rng, &noise, &cfg).unwrap();
        let (trunk, leaf) = create_tree_mesh(&tree, &mcfg);
        let edges = count_edges(&tree) as usize;
        assert_eq!(trunk.positions.len(), 2 * (segments as usize + 1) * edges);
        assert_eq!(trunk.indices.len(), 6 * segments as usize * edges);
        check_indices(&trunk.indices, trunk.positions.len());
        check_indices(&leaf.indices, leaf.positions.len());
    }
}

#[test]
fn index_validity() {
    let cfg = TreeConfig::standard();
    let mcfg = MeshConfig::standard();
    let noise = ConstNoise::new(850);
    let mut rng = StdRandom::from_seed(7);
    let tree = generate_tree(&mut rng, &noise, &cfg).unwrap();
    let (trunk, leaf): (TrunkMesh, LeafMesh) = create_tree_mesh(&tree, &mcfg);
    check_indices(&trunk.indices, trunk.positions.len());
    check_indices(&leaf.indices, leaf.positions.len());
}

#[test]
fn trunk_winding_faces_outward() {
    // Thick branches relative to the truncation grain, so the sign of the
    // face-normal dot is meaningful on every triangle.
    let cfg = TreeConfig {
        max_depth: 3,
        start_radius: 3000,
        min_radius: 300,
        branch_min: 1,
        branch_max: 3,
        bend_max: 785,
        length_min: 500,
        length_max: 1000,
        taper_min: 600,
        taper_max: 800,
    };
    let mcfg = MeshConfig::standard();
    let noise = ConstNoise::new(150);
    let mut rng = StdRandom::from_seed(42);
    let tree = generate_tree(&mut rng, &noise, &cfg).unwrap();
    let (trunk, _) = create_tree_mesh(&tree, &mcfg);
    assert!(!trunk.indices.is_empty());
    for d in face_dots(&trunk.positions, &trunk.normals, &trunk.indices) {
        assert!(d > 0.0);
    }
}

#[test]
fn leaf_quads_face_along_growth_direction() {
    // Leaf billboards carry the growth direction as their stored normal and
    // are wound to match: the face-normal dot is positive.
    let cfg = TreeConfig::standard();
    let mcfg = MeshConfig::standard();
    let noise = ConstNoise::new(-700);
    let mut rng = StdRandom::from_seed(11);
    let tree = generate_tree(&mut rng, &noise, &cfg).unwrap();
    let (_, leaf) = create_tree_mesh(&tree, &mcfg);
    assert!(!leaf.indices.is_empty());
    for d in face_dots(&leaf.positions, &leaf.normals, &leaf.indices) {
        assert!(d > 0.0);
    }
}

#[test]
fn synthesis_is_idempotent() {
    let cfg = TreeConfig::standard();
    let mcfg = MeshConfig::standard();
    let noise = ConstNoise::new(75);
    let mut rng = StdRandom::from_seed(500);
    let tree = generate_tree(&mut rng, &noise, &cfg).unwrap();
    let (t1, l1) = create_tree_mesh(&tree, &mcfg);
    let (t2, l2) = create_tree_mesh(&tree, &mcfg);
    assert_eq!(t1.positions, t2.positions);
    assert_eq!(t1.normals, t2.normals);
    assert_eq!(t1.indices, t2.indices);
    assert_eq!(l1.positions, l2.positions);
    assert_eq!(l1.normals, l2.normals);
    assert_eq!(l1.uvs, l2.uvs);
    assert_eq!(l1.indices, l2.indices);
}

#[test]
fn rejected_config_emits_nothing() {
    let mut cfg = TreeConfig::standard();
    cfg.max_depth = 40;
    let mcfg = MeshConfig::standard();
    let mut rng = ScriptRandom::from_script(vec![1, 2, 3]);
    let noise = ConstNoise::new(0);
    assert!(generate_tree_mesh(&mut rng, &noise, &cfg, &mcfg).is_err());
}
