use proctree::branch::{generate_tree, generate_tree_scripted, ConfigError, TreeConfig, TreeNode};
use proctree::field::ConstNoise;
use proctree::random::{ScriptRandom, StdRandom};
use proctree::vec3::V3;

fn standard_with_depth(depth: i64) -> TreeConfig {
    let mut c = TreeConfig::standard();
    c.max_depth = depth;
    c
}

fn check_taper(node: &TreeNode) {
    for child in &node.children {
        assert!(child.radius < node.radius);
        check_taper(child);
    }
}

fn check_leaves(node: &TreeNode, min_radius: i64, budget: i64) {
    assert_eq!(node.is_leaf, node.children.is_empty());
    if node.is_leaf {
        assert!(budget == 0 || node.radius < min_radius);
    } else {
        assert!(budget >= 1);
    }
    for child in &node.children {
        check_leaves(child, min_radius, budget - 1);
    }
}

fn height(node: &TreeNode) -> i64 {
    let mut h: i64 = 0;
    for child in &node.children {
        let ch = 1 + height(child);
        if ch > h {
            h = ch;
        }
    }
    h
}

#[test]
fn depth_zero_root_is_leaf() {
    let cfg = standard_with_depth(0);
    let mut rng = ScriptRandom::from_script(vec![]);
    let noise = ConstNoise::new(0);
    let tree = generate_tree(&mut rng, &noise, &cfg).unwrap();
    assert!(tree.is_leaf);
    assert!(tree.children.is_empty());
    assert_eq!(tree.position, V3 { x: 0, y: 0, z: 0 });
    assert_eq!(tree.direction, V3 { x: 0, y: 1000, z: 0 });
    assert_eq!(tree.radius, 200);
}

#[test]
fn single_branch_graph() {
    // One draw for the branch count (0 picks the low end of {1..3}), then
    // bend, length and taper draws for the single child.
    let cfg = standard_with_depth(1);
    let mut rng = ScriptRandom::from_script(vec![0, 0, 0, 0]);
    let noise = ConstNoise::new(0);
    let tree = generate_tree(&mut rng, &noise, &cfg).unwrap();
    assert!(!tree.is_leaf);
    assert_eq!(tree.children.len(), 1);
    let child = &tree.children[0];
    assert!(child.is_leaf);
    assert!(child.children.is_empty());
    // exact replay of the fixed-point arithmetic
    assert_eq!(child.radius, 120);
    assert_eq!(child.direction, V3 { x: -707, y: 708, z: 0 });
    assert_eq!(child.position, V3 { x: -353, y: 354, z: 0 });
}

#[test]
fn deterministic_with_same_script() {
    let cfg = TreeConfig::standard();
    let script: Vec<u64> = (0..4096u64).map(|i| i.wrapping_mul(2654435761)).collect();
    let noise = ConstNoise::new(317);
    let mut r1 = ScriptRandom::from_script(script.clone());
    let mut r2 = ScriptRandom::from_script(script);
    let t1 = generate_tree(&mut r1, &noise, &cfg).unwrap();
    let t2 = generate_tree(&mut r2, &noise, &cfg).unwrap();
    assert_eq!(t1, t2);
}

#[test]
fn deterministic_with_same_seed() {
    let cfg = TreeConfig::standard();
    let noise = ConstNoise::new(-500);
    let mut r1 = StdRandom::from_seed(12345);
    let mut r2 = StdRandom::from_seed(12345);
    let t1 = generate_tree(&mut r1, &noise, &cfg).unwrap();
    let t2 = generate_tree(&mut r2, &noise, &cfg).unwrap();
    assert_eq!(t1, t2);
}

#[test]
fn seeded_generator_draws_vary() {
    // Different seeds give different graphs for the standard configuration;
    // this would fail if the seeded source ignored its seed.
    let cfg = TreeConfig::standard();
    let noise = ConstNoise::new(0);
    let mut r1 = StdRandom::from_seed(1);
    let mut r2 = StdRandom::from_seed(2);
    let t1 = generate_tree(&mut r1, &noise, &cfg).unwrap();
    let t2 = generate_tree(&mut r2, &noise, &cfg).unwrap();
    assert_ne!(t1, t2);
}

#[test]
fn tapering_invariant_holds() {
    let cfg = standard_with_depth(5);
    let noise = ConstNoise::new(250);
    let mut rng = StdRandom::from_seed(77);
    let tree = generate_tree(&mut rng, &noise, &cfg).unwrap();
    check_taper(&tree);
}

#[test]
fn leaf_correctness_holds() {
    let cfg = standard_with_depth(6);
    let noise = ConstNoise::new(-100);
    let mut rng = StdRandom::from_seed(99);
    let tree = generate_tree(&mut rng, &noise, &cfg).unwrap();
    check_leaves(&tree, cfg.min_radius, cfg.max_depth);
}

#[test]
fn depth_is_bounded() {
    for depth in [0i64, 1, 2, 5, 7] {
        let cfg = standard_with_depth(depth);
        let noise = ConstNoise::new(400);
        let mut rng = StdRandom::from_seed(31 + depth as u64);
        let tree = generate_tree(&mut rng, &noise, &cfg).unwrap();
        assert!(height(&tree) <= depth);
    }
}

#[test]
fn rejects_negative_depth() {
    let mut cfg = TreeConfig::standard();
    cfg.max_depth = -1;
    let mut rng = ScriptRandom::from_script(vec![]);
    let noise = ConstNoise::new(0);
    assert_eq!(
        generate_tree(&mut rng, &noise, &cfg),
        Err(ConfigError::DepthOutOfRange)
    );
}

#[test]
fn rejects_nonpositive_start_radius() {
    let mut cfg = TreeConfig::standard();
    cfg.start_radius = 0;
    let mut rng = ScriptRandom::from_script(vec![]);
    let noise = ConstNoise::new(0);
    assert_eq!(
        generate_tree(&mut rng, &noise, &cfg),
        Err(ConfigError::StartRadiusOutOfRange)
    );
}

#[test]
fn rejects_cutoff_at_or_above_start() {
    let mut cfg = TreeConfig::standard();
    cfg.min_radius = cfg.start_radius;
    let mut rng = ScriptRandom::from_script(vec![]);
    let noise = ConstNoise::new(0);
    assert_eq!(
        generate_tree(&mut rng, &noise, &cfg),
        Err(ConfigError::MinRadiusOutOfRange)
    );
}

#[test]
fn rejects_bad_branch_range() {
    let mut cfg = TreeConfig::standard();
    cfg.branch_min = 0;
    let mut rng = ScriptRandom::from_script(vec![]);
    let noise = ConstNoise::new(0);
    assert_eq!(
        generate_tree(&mut rng, &noise, &cfg),
        Err(ConfigError::BranchCountOutOfRange)
    );
}

#[test]
fn rejects_bad_bend_range() {
    let mut cfg = TreeConfig::standard();
    cfg.bend_max = 0;
    let mut rng = ScriptRandom::from_script(vec![]);
    let noise = ConstNoise::new(0);
    assert_eq!(
        generate_tree(&mut rng, &noise, &cfg),
        Err(ConfigError::BendOutOfRange)
    );
}

#[test]
fn rejects_bad_length_range() {
    let mut cfg = TreeConfig::standard();
    cfg.length_min = 800;
    cfg.length_max = 700;
    let mut rng = ScriptRandom::from_script(vec![]);
    let noise = ConstNoise::new(0);
    assert_eq!(
        generate_tree(&mut rng, &noise, &cfg),
        Err(ConfigError::LengthOutOfRange)
    );
}

#[test]
fn rejects_unit_or_larger_taper() {
    let mut cfg = TreeConfig::standard();
    cfg.taper_max = 1000;
    let mut rng = ScriptRandom::from_script(vec![]);
    let noise = ConstNoise::new(0);
    assert_eq!(
        generate_tree(&mut rng, &noise, &cfg),
        Err(ConfigError::TaperOutOfRange)
    );
}

#[test]
fn scripted_entry_matches_script_source() {
    let cfg = TreeConfig::standard();
    let noise = ConstNoise::new(120);
    let script: Vec<u64> = (0..512u64).map(|i| i.wrapping_mul(0x9e3779b97f4a7c15)).collect();
    let t1 = generate_tree_scripted(script.clone(), &noise, &cfg).unwrap();
    let mut rng = ScriptRandom::from_script(script);
    let t2 = generate_tree(&mut rng, &noise, &cfg).unwrap();
    assert_eq!(t1, t2);
}

#[test]
fn validate_accepts_standard() {
    let cfg = TreeConfig::standard();
    assert_eq!(cfg.validate(), None);
}
