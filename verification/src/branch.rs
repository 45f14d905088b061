//! The branch graph generator.
//!
//! A tree of `TreeNode` values is grown recursively from a random source and
//! a noise field.  The whole generation is mirrored by spec functions
//! (`gen_node_model`, `gen_children_model`) so that the produced graph is
//! provably a pure function of the configuration, the noise field, and the
//! values drawn from the random source.

use crate::field::NoiseField;
use crate::num::{
    cos_milli, lemma_tdiv_bound, lemma_tdiv_lt, mul_div, pick_i64, pick_u64, sin_milli, spec_cos,
    spec_pick, spec_sin, spec_wrap, tdiv, tdiv_i64, wrap_angle,
};
use crate::random::{lemma_replay_step, replays_script, script_at, RandomSource, ScriptRandom};
use crate::vec3::{
    lemma_pt_scale_bound, pt_add, pt_bounded, pt_frame, pt_norm, pt_scale, pt_unit, pt_up,
    pt_zero, v3_add, v3_frame, v3_scale, v3_unit, Pt, V3,
};
use vstd::prelude::*;

verus! {

/// The configuration surface of the generator, all scalars in milli-units.
#[derive(Clone, Copy, Debug, PartialEq, Eq, Structural)]
pub struct TreeConfig {
    /// Maximum recursion depth: the longest root-to-leaf path in edges.
    pub max_depth: i64,
    /// Radius of the root node.
    pub start_radius: i64,
    /// Cutoff: a node whose radius falls below this becomes a leaf.
    pub min_radius: i64,
    /// Smallest number of branches grown at a non-leaf node.
    pub branch_min: u64,
    /// Largest number of branches grown at a non-leaf node.
    pub branch_max: u64,
    /// Bend angles are drawn from [-bend_max, bend_max] milli-radians.
    pub bend_max: i64,
    /// Smallest base segment length.
    pub length_min: i64,
    /// Largest base segment length.
    pub length_max: i64,
    /// Smallest taper factor (sub-unit, in milli).
    pub taper_min: i64,
    /// Largest taper factor (sub-unit, in milli).
    pub taper_max: i64,
}

/// Why a configuration was rejected.
#[derive(Clone, Copy, Debug, PartialEq, Eq, Structural)]
pub enum ConfigError {
    /// The depth is negative or beyond the supported limit.
    DepthOutOfRange,
    /// The starting radius is not positive or beyond the supported limit.
    StartRadiusOutOfRange,
    /// The cutoff radius is not positive or not below the starting radius.
    MinRadiusOutOfRange,
    /// The branch count range does not satisfy 1 <= min <= max <= 3.
    BranchCountOutOfRange,
    /// The bend bound is not positive or exceeds a quarter turn.
    BendOutOfRange,
    /// The length range is not positive, ordered, and within the limit.
    LengthOutOfRange,
    /// The taper range is not positive, ordered, and sub-unit.
    TaperOutOfRange,
}

pub open spec fn depth_ok(c: TreeConfig) -> bool {
    0 <= c.max_depth <= 32
}

pub open spec fn start_radius_ok(c: TreeConfig) -> bool {
    0 < c.start_radius <= 1_000_000
}

pub open spec fn min_radius_ok(c: TreeConfig) -> bool {
    0 < c.min_radius < c.start_radius
}

pub open spec fn branch_range_ok(c: TreeConfig) -> bool {
    1 <= c.branch_min <= c.branch_max <= 3
}

pub open spec fn bend_ok(c: TreeConfig) -> bool {
    0 < c.bend_max <= 1571
}

pub open spec fn length_ok(c: TreeConfig) -> bool {
    0 < c.length_min <= c.length_max <= 10_000
}

pub open spec fn taper_ok(c: TreeConfig) -> bool {
    0 < c.taper_min <= c.taper_max <= 999
}

/// A configuration the generator accepts.
pub open spec fn config_valid(c: TreeConfig) -> bool {
    &&& depth_ok(c)
    &&& start_radius_ok(c)
    &&& min_radius_ok(c)
    &&& branch_range_ok(c)
    &&& bend_ok(c)
    &&& length_ok(c)
    &&& taper_ok(c)
}

/// The first violated rule of a configuration, if any.
pub open spec fn config_check(c: TreeConfig) -> Option<ConfigError> {
    if !depth_ok(c) {
        Some(ConfigError::DepthOutOfRange)
    } else if !start_radius_ok(c) {
        Some(ConfigError::StartRadiusOutOfRange)
    } else if !min_radius_ok(c) {
        Some(ConfigError::MinRadiusOutOfRange)
    } else if !branch_range_ok(c) {
        Some(ConfigError::BranchCountOutOfRange)
    } else if !bend_ok(c) {
        Some(ConfigError::BendOutOfRange)
    } else if !length_ok(c) {
        Some(ConfigError::LengthOutOfRange)
    } else if !taper_ok(c) {
        Some(ConfigError::TaperOutOfRange)
    } else {
        None
    }
}

impl TreeConfig {
    /// The stock configuration: depth 7, root radius
    /// 0.2, cutoff 0.01, one to three branches, quarter-turn bends, base
    /// lengths 0.5 to 1.0 and taper factors 0.6 to 0.8.
    pub fn standard() -> (c: TreeConfig)
        ensures
            c == (TreeConfig {
                max_depth: 7,
                start_radius: 200,
                min_radius: 10,
                branch_min: 1,
                branch_max: 3,
                bend_max: 785,
                length_min: 500,
                length_max: 1000,
                taper_min: 600,
                taper_max: 800,
            }),
            config_valid(c),
    {
        TreeConfig {
            max_depth: 7,
            start_radius: 200,
            min_radius: 10,
            branch_min: 1,
            branch_max: 3,
            bend_max: 785,
            length_min: 500,
            length_max: 1000,
            taper_min: 600,
            taper_max: 800,
        }
    }

    /// Check a configuration, reporting the first violated rule.
    pub fn validate(&self) -> (r: Option<ConfigError>)
        ensures
            r == config_check(*self),
            r is None <==> config_valid(*self),
    {
        if !(0 <= self.max_depth && self.max_depth <= 32) {
            Some(ConfigError::DepthOutOfRange)
        } else if !(0 < self.start_radius && self.start_radius <= 1_000_000) {
            Some(ConfigError::StartRadiusOutOfRange)
        } else if !(0 < self.min_radius && self.min_radius < self.start_radius) {
            Some(ConfigError::MinRadiusOutOfRange)
        } else if !(1 <= self.branch_min && self.branch_min <= self.branch_max
            && self.branch_max <= 3) {
            Some(ConfigError::BranchCountOutOfRange)
        } else if !(0 < self.bend_max && self.bend_max <= 1571) {
            Some(ConfigError::BendOutOfRange)
        } else if !(0 < self.length_min && self.length_min <= self.length_max
            && self.length_max <= 10_000) {
            Some(ConfigError::LengthOutOfRange)
        } else if !(0 < self.taper_min && self.taper_min <= self.taper_max && self.taper_max
            <= 999) {
            Some(ConfigError::TaperOutOfRange)
        } else {
            None
        }
    }
}

/// Mathematical image of a branch node: the whole subtree as ghost data.
pub ghost struct GNode {
    pub position: Pt,
    pub direction: Pt,
    pub radius: int,
    pub children: Seq<GNode>,
    pub is_leaf: bool,
}

/// One node of the branch graph.  Children are owned exclusively by their
/// parent; `is_leaf` is true exactly when there are no children.
#[derive(Debug, PartialEq, Eq)]
pub struct TreeNode {
    pub position: V3,
    pub direction: V3,
    pub radius: i64,
    pub children: Vec<TreeNode>,
    pub is_leaf: bool,
}

/// The ghost image of a node and its whole subtree.
pub open spec fn node_view(t: TreeNode) -> GNode
    decreases t, 1int,
{
    GNode {
        position: t.position@,
        direction: t.direction@,
        radius: t.radius as int,
        children: views_of(t.children@),
        is_leaf: t.is_leaf,
    }
}

/// The ghost images of a sequence of nodes, in order.
pub open spec fn views_of(s: Seq<TreeNode>) -> Seq<GNode>
    decreases s, 0int,
{
    if s.len() == 0 {
        Seq::empty()
    } else {
        seq![node_view(s[0])] + views_of(s.drop_first())
    }
}

/// `views_of` maps the sequence element by element.
pub proof fn lemma_views_of_index(s: Seq<TreeNode>)
    ensures
        views_of(s).len() == s.len(),
        forall|i: int| 0 <= i < s.len() ==> views_of(s)[i] == node_view(s[i]),
    decreases s,
{
    if s.len() > 0 {
        lemma_views_of_index(s.drop_first());
        assert forall|i: int| 0 <= i < s.len() implies views_of(s)[i] == node_view(s[i]) by {
            if i > 0 {
                assert(views_of(s)[i] == views_of(s.drop_first())[i - 1]);
                assert(s.drop_first()[i - 1] == s[i]);
            }
        }
    }
}

/// Radii shrink strictly along every parent-to-child edge.
pub open spec fn tapered(n: GNode) -> bool
    decreases n,
{
    forall|i: int|
        0 <= i < n.children.len() ==> (#[trigger] n.children[i]).radius < n.radius && tapered(
            n.children[i],
        )
}

/// A node is a leaf exactly when it has no children, and a leaf either sits
/// at the full depth (budget zero) or its radius fell below the cutoff.
pub open spec fn leaves_ok(n: GNode, min_radius: int, budget: int) -> bool
    decreases n,
{
    &&& (n.is_leaf <==> n.children.len() == 0)
    &&& (n.is_leaf ==> budget == 0 || n.radius < min_radius)
    &&& (!n.is_leaf ==> budget >= 1)
    &&& forall|i: int|
        0 <= i < n.children.len() ==> leaves_ok(#[trigger] n.children[i], min_radius, budget - 1)
}

/// The longest root-to-leaf path has at most `d` edges.
pub open spec fn depth_bounded(n: GNode, d: int) -> bool
    decreases n,
{
    n.children.len() == 0 || (d >= 1 && forall|i: int|
        0 <= i < n.children.len() ==> depth_bounded(#[trigger] n.children[i], d - 1))
}

/// A depth bound also holds for any larger bound.
pub proof fn lemma_depth_bounded_mono(n: GNode, d1: int, d2: int)
    requires
        depth_bounded(n, d1),
        d1 <= d2,
    ensures
        depth_bounded(n, d2),
    decreases n,
{
    if n.children.len() != 0 {
        assert forall|i: int| 0 <= i < n.children.len() implies depth_bounded(
            #[trigger] n.children[i],
            d2 - 1,
        ) by {
            lemma_depth_bounded_mono(n.children[i], d1 - 1, d2 - 1);
        }
    }
}

/// Every node of the subtree stays within the machine bounds the mesh
/// synthesizer relies on.
pub open spec fn node_bounded(n: GNode) -> bool
    decreases n,
{
    &&& pt_bounded(n.position, 10_000_000)
    &&& pt_bounded(n.direction, 1000)
    &&& 995 <= pt_norm(n.direction) <= 1732
    &&& 0 <= n.radius <= 1_000_000
    &&& n.children.len() <= 3
    &&& forall|i: int| 0 <= i < n.children.len() ==> node_bounded(#[trigger] n.children[i])
}

/// The value of the draw stream at an index: past the recorded values the
/// stream reads as zero.
pub open spec fn draw_at(draws: Seq<u64>, i: int) -> int {
    if 0 <= i < draws.len() {
        draws[i] as int
    } else {
        0
    }
}

/// The branch count taken at a non-leaf node, clamped into the supported
/// window; under a valid configuration the clamp never fires.
pub open spec fn branch_count_of(raw: int, c: TreeConfig) -> int {
    let k = spec_pick(raw, c.branch_min as int, c.branch_max as int);
    if 1 <= k <= 3 {
        k
    } else {
        1
    }
}

/// Twist angle from a noise value: the sub-unit noise scaled to a full turn
/// and wrapped back into [-pi, pi].
pub open spec fn twist_of(nv: int) -> int {
    spec_wrap(tdiv(nv * 6283, 1000))
}

/// A child's growth direction: the parent direction tilted away from its
/// axis by the bend angle, at an azimuth about that axis given by the noise
/// twist, then rescaled to unit length.  In the parent's local frame this is
/// the spherical direction with polar angle `bend` and azimuth `twist`, so
/// the twist is a rotation about the current growth axis.
pub open spec fn child_dir(dir: Pt, nv: int, bend: int) -> Pt {
    let t = twist_of(nv);
    let fr = pt_frame(dir);
    let azimuth = pt_add(pt_scale(fr.0, spec_cos(t)), pt_scale(fr.1, spec_sin(t)));
    pt_unit(pt_add(pt_scale(dir, spec_cos(bend)), pt_scale(azimuth, spec_sin(bend))))
}

/// Segment length: the drawn base length scaled up with remaining depth.
pub open spec fn seg_length(c: TreeConfig, depth: int, lpick: int) -> int {
    tdiv(lpick * (depth * 200 + 800), 1000)
}

/// The coordinate handed to the noise field: the position scaled by one
/// tenth, as milli-units.
pub open spec fn noise_coord(p: Pt) -> Pt {
    Pt { x: tdiv(p.x, 10), y: tdiv(p.y, 10), z: tdiv(p.z, 10) }
}

/// The subtree grown at one node, together with the index just past the
/// draws it consumed.  `draws` is read from index `i` on.
pub open spec fn gen_node_model<N: NoiseField>(
    noise: &N,
    c: TreeConfig,
    depth: int,
    pos: Pt,
    dir: Pt,
    radius: int,
    draws: Seq<u64>,
    i: int,
) -> (GNode, int)
    decreases depth, 4int,
{
    if depth <= 0 || radius < c.min_radius {
        (GNode { position: pos, direction: dir, radius, children: Seq::empty(), is_leaf: true }, i)
    } else {
        let count = branch_count_of(draw_at(draws, i), c);
        let (kids, j) = gen_children_model(noise, c, depth, pos, dir, radius, count, draws, i + 1);
        (GNode { position: pos, direction: dir, radius, children: kids, is_leaf: false }, j)
    }
}

/// The next `k` children grown at a node, together with the index just past
/// the draws they consumed.
pub open spec fn gen_children_model<N: NoiseField>(
    noise: &N,
    c: TreeConfig,
    depth: int,
    pos: Pt,
    dir: Pt,
    radius: int,
    k: int,
    draws: Seq<u64>,
    i: int,
) -> (Seq<GNode>, int)
    decreases depth, k,
{
    if k <= 0 || depth <= 0 {
        (Seq::empty(), i)
    } else {
        let nc = noise_coord(pos);
        let nv = noise.at(nc.x, nc.y, nc.z);
        let bend = spec_pick(draw_at(draws, i), -c.bend_max as int, c.bend_max as int);
        let lpick = spec_pick(draw_at(draws, i + 1), c.length_min as int, c.length_max as int);
        let taper = spec_pick(draw_at(draws, i + 2), c.taper_min as int, c.taper_max as int);
        let d2 = child_dir(dir, nv, bend);
        let p2 = pt_add(pos, pt_scale(d2, seg_length(c, depth, lpick)));
        let r2 = tdiv(radius * taper, 1000);
        let (child, j1) = gen_node_model(noise, c, depth - 1, p2, d2, r2, draws, i + 3);
        let (rest, j2) = gen_children_model(noise, c, depth, pos, dir, radius, k - 1, draws, j1);
        (seq![child] + rest, j2)
    }
}

/// Generation never consumes draws before the index it starts at.
pub proof fn lemma_node_consumes_forward<N: NoiseField>(
    noise: &N,
    c: TreeConfig,
    depth: int,
    pos: Pt,
    dir: Pt,
    radius: int,
    draws: Seq<u64>,
    i: int,
)
    ensures
        i <= gen_node_model(noise, c, depth, pos, dir, radius, draws, i).1,
    decreases depth, 4int,
{
    if !(depth <= 0 || radius < c.min_radius) {
        let count = branch_count_of(draw_at(draws, i), c);
        lemma_children_consume_forward(noise, c, depth, pos, dir, radius, count, draws, i + 1);
    }
}

/// Growing children never consumes draws before the index it starts at.
pub proof fn lemma_children_consume_forward<N: NoiseField>(
    noise: &N,
    c: TreeConfig,
    depth: int,
    pos: Pt,
    dir: Pt,
    radius: int,
    k: int,
    draws: Seq<u64>,
    i: int,
)
    ensures
        i <= gen_children_model(noise, c, depth, pos, dir, radius, k, draws, i).1,
    decreases depth, k,
{
    if !(k <= 0 || depth <= 0) {
        let nc = noise_coord(pos);
        let nv = noise.at(nc.x, nc.y, nc.z);
        let bend = spec_pick(draw_at(draws, i), -c.bend_max as int, c.bend_max as int);
        let lpick = spec_pick(draw_at(draws, i + 1), c.length_min as int, c.length_max as int);
        let taper = spec_pick(draw_at(draws, i + 2), c.taper_min as int, c.taper_max as int);
        let d2 = child_dir(dir, nv, bend);
        let p2 = pt_add(pos, pt_scale(d2, seg_length(c, depth, lpick)));
        let r2 = tdiv(radius * taper, 1000);
        lemma_node_consumes_forward(noise, c, depth - 1, p2, d2, r2, draws, i + 3);
        let j1 = gen_node_model(noise, c, depth - 1, p2, d2, r2, draws, i + 3).1;
        lemma_children_consume_forward(noise, c, depth, pos, dir, radius, k - 1, draws, j1);
    }
}

/// Extending the draw record past the window a generation consumed does not
/// change what it generates.
pub proof fn lemma_node_frame<N: NoiseField>(
    noise: &N,
    c: TreeConfig,
    depth: int,
    pos: Pt,
    dir: Pt,
    radius: int,
    d1: Seq<u64>,
    d2: Seq<u64>,
    i: int,
)
    requires
        d1.is_prefix_of(d2),
        gen_node_model(noise, c, depth, pos, dir, radius, d1, i).1 <= d1.len(),
    ensures
        gen_node_model(noise, c, depth, pos, dir, radius, d2, i) == gen_node_model(
            noise,
            c,
            depth,
            pos,
            dir,
            radius,
            d1,
            i,
        ),
    decreases depth, 4int,
{
    if !(depth <= 0 || radius < c.min_radius) {
        let count = branch_count_of(draw_at(d1, i), c);
        lemma_children_consume_forward(noise, c, depth, pos, dir, radius, count, d1, i + 1);
        assert(i < d1.len());
        assert(draw_at(d2, i) == draw_at(d1, i));
        lemma_children_frame(noise, c, depth, pos, dir, radius, count, d1, d2, i + 1);
    }
}

/// Extending the draw record past the window a child batch consumed does not
/// change the children it generates.
pub proof fn lemma_children_frame<N: NoiseField>(
    noise: &N,
    c: TreeConfig,
    depth: int,
    pos: Pt,
    dir: Pt,
    radius: int,
    k: int,
    d1: Seq<u64>,
    d2: Seq<u64>,
    i: int,
)
    requires
        d1.is_prefix_of(d2),
        gen_children_model(noise, c, depth, pos, dir, radius, k, d1, i).1 <= d1.len(),
    ensures
        gen_children_model(noise, c, depth, pos, dir, radius, k, d2, i) == gen_children_model(
            noise,
            c,
            depth,
            pos,
            dir,
            radius,
            k,
            d1,
            i,
        ),
    decreases depth, k,
{
    if !(k <= 0 || depth <= 0) {
        let nc = noise_coord(pos);
        let nv = noise.at(nc.x, nc.y, nc.z);
        let bend = spec_pick(draw_at(d1, i), -c.bend_max as int, c.bend_max as int);
        let lpick = spec_pick(draw_at(d1, i + 1), c.length_min as int, c.length_max as int);
        let taper = spec_pick(draw_at(d1, i + 2), c.taper_min as int, c.taper_max as int);
        let d2dir = child_dir(dir, nv, bend);
        let p2 = pt_add(pos, pt_scale(d2dir, seg_length(c, depth, lpick)));
        let r2 = tdiv(radius * taper, 1000);
        lemma_node_consumes_forward(noise, c, depth - 1, p2, d2dir, r2, d1, i + 3);
        let j1 = gen_node_model(noise, c, depth - 1, p2, d2dir, r2, d1, i + 3).1;
        lemma_children_consume_forward(noise, c, depth, pos, dir, radius, k - 1, d1, j1);
        assert(i + 3 <= j1 <= d1.len());
        assert(draw_at(d2, i) == draw_at(d1, i));
        assert(draw_at(d2, i + 1) == draw_at(d1, i + 1));
        assert(draw_at(d2, i + 2) == draw_at(d1, i + 2));
        lemma_node_frame(noise, c, depth - 1, p2, d2dir, r2, d1, d2, i + 3);
        lemma_children_frame(noise, c, depth, pos, dir, radius, k - 1, d1, d2, j1);
    }
}

/// A draw record of length `n` read off a script: the script's values,
/// padded with zeros past its end.
pub open spec fn tape_of(script: Seq<u64>, n: nat) -> Seq<u64> {
    Seq::new(n, |i: int| script_at(script, i))
}

/// What replaying a script produces: the generation model read over the
/// script's padded stream, for the draw count the model itself determines.
pub open spec fn scripted_result<N: NoiseField>(
    noise: &N,
    c: TreeConfig,
    script: Seq<u64>,
    g: GNode,
) -> bool {
    exists|n: nat|
        gen_node_model(
            noise,
            c,
            c.max_depth as int,
            pt_zero(),
            pt_up(),
            c.start_radius as int,
            tape_of(script, n),
            0,
        ) == (g, n as int)
}

/// Determinism of generation: for one script, one noise field and one
/// configuration there is only one graph the scripted generator can
/// produce.
pub proof fn lemma_scripted_runs_agree<N: NoiseField>(
    noise: &N,
    c: TreeConfig,
    script: Seq<u64>,
    g1: GNode,
    g2: GNode,
)
    requires
        scripted_result(noise, c, script, g1),
        scripted_result(noise, c, script, g2),
    ensures
        g1 == g2,
{
    let d = c.max_depth as int;
    let r = c.start_radius as int;
    let n1 = choose|n: nat|
        gen_node_model(noise, c, d, pt_zero(), pt_up(), r, tape_of(script, n), 0) == (g1, n as int);
    let n2 = choose|n: nat|
        gen_node_model(noise, c, d, pt_zero(), pt_up(), r, tape_of(script, n), 0) == (g2, n as int);
    if n1 <= n2 {
        assert(tape_of(script, n1).is_prefix_of(tape_of(script, n2))) by {
            assert(tape_of(script, n1) =~= tape_of(script, n2).subrange(0, n1 as int));
        }
        lemma_node_frame(
            noise,
            c,
            d,
            pt_zero(),
            pt_up(),
            r,
            tape_of(script, n1),
            tape_of(script, n2),
            0,
        );
    } else {
        assert(tape_of(script, n2).is_prefix_of(tape_of(script, n1))) by {
            assert(tape_of(script, n2) =~= tape_of(script, n1).subrange(0, n2 as int));
        }
        lemma_node_frame(
            noise,
            c,
            d,
            pt_zero(),
            pt_up(),
            r,
            tape_of(script, n2),
            tape_of(script, n1),
            0,
        );
    }
}

/// Prefixes of the draw record compose.
proof fn lemma_prefix_trans(a: Seq<u64>, b: Seq<u64>, c: Seq<u64>)
    requires
        a.is_prefix_of(b),
        b.is_prefix_of(c),
    ensures
        a.is_prefix_of(c),
{
    assert(a =~= c.subrange(0, a.len() as int));
}

/// A prefix agrees with the full record on every recorded index.
proof fn lemma_prefix_index(a: Seq<u64>, b: Seq<u64>)
    requires
        a.is_prefix_of(b),
    ensures
        forall|j: int| 0 <= j < a.len() ==> a[j] == b[j],
{
    assert forall|j: int| 0 <= j < a.len() implies a[j] == b[j] by {
        assert(a[j] == b.subrange(0, a.len() as int)[j]);
    }
}

/// Grow the subtree at one node.  The result is pinned to the generation
/// model over the draws that were consumed, and satisfies the structural
/// invariants of the branch graph.
fn grow_node<R: RandomSource, N: NoiseField>(
    rng: &mut R,
    noise: &N,
    cfg: &TreeConfig,
    depth: i64,
    pos: V3,
    dir: V3,
    radius: i64,
) -> (t: TreeNode)
    requires
        config_valid(*cfg),
        0 <= depth <= 32,
        pt_bounded(pos@, 10_000_000 - 80_000 * depth as int),
        pt_bounded(dir@, 1000),
        995 <= pt_norm(dir@) <= 1732,
        0 <= radius <= 1_000_000,
    ensures
        old(rng).taken().is_prefix_of(final(rng).taken()),
        gen_node_model(
            noise,
            *cfg,
            depth as int,
            pos@,
            dir@,
            radius as int,
            final(rng).taken(),
            old(rng).taken().len() as int,
        ) == (node_view(t), final(rng).taken().len() as int),
        tapered(node_view(t)),
        leaves_ok(node_view(t), cfg.min_radius as int, depth as int),
        depth_bounded(node_view(t), depth as int),
        node_bounded(node_view(t)),
        node_view(t).position == pos@,
        node_view(t).direction == dir@,
        node_view(t).radius == radius as int,
        t.is_leaf == (depth == 0 || radius < cfg.min_radius),
        (old(rng).scripted() && replays_script(old(rng))) ==> final(rng).scripted()
            && final(rng).script() == old(rng).script() && replays_script(final(rng)),
    decreases depth, 4int,
{
    if depth == 0 || radius < cfg.min_radius {
        let t = TreeNode {
            position: pos,
            direction: dir,
            radius,
            children: Vec::new(),
            is_leaf: true,
        };
        proof {
            assert(final(rng).taken().is_prefix_of(final(rng).taken())) by {
                assert(final(rng).taken() =~= final(rng).taken().subrange(
                    0,
                    final(rng).taken().len() as int,
                ));
            }
            assert(node_view(t).children =~= Seq::<GNode>::empty());
        }
        t
    } else {
        let ghost s0 = *rng;
        let ghost tk0 = rng.taken();
        let craw = rng.next_raw();
        let ghost s1 = *rng;
        let ghost tk1 = rng.taken();
        let count = pick_u64(craw, cfg.branch_min, cfg.branch_max);
        let kids = grow_children(rng, noise, cfg, depth, pos, dir, radius, count);
        let t = TreeNode {
            position: pos,
            direction: dir,
            radius,
            children: kids,
            is_leaf: false,
        };
        proof {
            let fin = final(rng).taken();
            let i0 = tk0.len() as int;
            assert(tk0.is_prefix_of(tk1)) by {
                assert(tk0 =~= tk1.subrange(0, i0));
            }
            lemma_prefix_trans(tk0, tk1, fin);
            lemma_prefix_index(tk1, fin);
            assert(draw_at(fin, i0) == craw as int);
            assert(branch_count_of(draw_at(fin, i0), *cfg) == count as int);
            assert(node_view(t).children == views_of(kids@));
            lemma_views_of_index(kids@);
            assert(tapered(node_view(t)));
            assert(leaves_ok(node_view(t), cfg.min_radius as int, depth as int));
            assert(depth_bounded(node_view(t), depth as int));
            assert(node_bounded(node_view(t)));
            if s0.scripted() && replays_script(&s0) {
                lemma_replay_step(&s0, &s1, craw);
            }
        }
        t
    }
}

/// Grow the next `k` children of a node.
fn grow_children<R: RandomSource, N: NoiseField>(
    rng: &mut R,
    noise: &N,
    cfg: &TreeConfig,
    depth: i64,
    pos: V3,
    dir: V3,
    radius: i64,
    k: u64,
) -> (kids: Vec<TreeNode>)
    requires
        config_valid(*cfg),
        1 <= depth <= 32,
        pt_bounded(pos@, 10_000_000 - 80_000 * depth as int),
        pt_bounded(dir@, 1000),
        995 <= pt_norm(dir@) <= 1732,
        cfg.min_radius <= radius <= 1_000_000,
        k <= 3,
    ensures
        old(rng).taken().is_prefix_of(final(rng).taken()),
        gen_children_model(
            noise,
            *cfg,
            depth as int,
            pos@,
            dir@,
            radius as int,
            k as int,
            final(rng).taken(),
            old(rng).taken().len() as int,
        ) == (views_of(kids@), final(rng).taken().len() as int),
        kids@.len() == k as nat,
        forall|i: int|
            0 <= i < views_of(kids@).len() ==> (#[trigger] views_of(kids@)[i]).radius < radius
                as int && tapered(views_of(kids@)[i]) && leaves_ok(
                views_of(kids@)[i],
                cfg.min_radius as int,
                depth as int - 1,
            ) && depth_bounded(views_of(kids@)[i], depth as int - 1) && node_bounded(
                views_of(kids@)[i],
            ),
        (old(rng).scripted() && replays_script(old(rng))) ==> final(rng).scripted()
            && final(rng).script() == old(rng).script() && replays_script(final(rng)),
    decreases depth, k as int,
{
    if k == 0 {
        let kids: Vec<TreeNode> = Vec::new();
        proof {
            assert(final(rng).taken().is_prefix_of(final(rng).taken())) by {
                assert(final(rng).taken() =~= final(rng).taken().subrange(
                    0,
                    final(rng).taken().len() as int,
                ));
            }
            assert(views_of(kids@) =~= Seq::<GNode>::empty());
        }
        kids
    } else {
        let ghost s0 = *rng;
        let ghost tk0 = rng.taken();
        let nx = tdiv_i64(pos.x, 10);
        let ny = tdiv_i64(pos.y, 10);
        let nz = tdiv_i64(pos.z, 10);
        let nv = noise.sample(nx, ny, nz);
        let craw = rng.next_raw();
        let ghost s1 = *rng;
        let ghost tk1 = rng.taken();
        let bend = pick_i64(craw, -cfg.bend_max, cfg.bend_max);
        let lraw = rng.next_raw();
        let ghost s2 = *rng;
        let ghost tk2 = rng.taken();
        let lpick = pick_i64(lraw, cfg.length_min, cfg.length_max);
        let traw = rng.next_raw();
        let ghost s3 = *rng;
        let ghost tk3 = rng.taken();
        let taper = pick_i64(traw, cfg.taper_min, cfg.taper_max);
        let cb = cos_milli(bend);
        let sb = sin_milli(bend);
        proof {
            assert(-6_283_000 <= nv as int * 6283 <= 6_283_000) by (nonlinear_arith)
                requires
                    -1000 <= nv as int <= 1000,
            ;
            lemma_tdiv_bound(nv as int * 6283, 1000, 6283);
        }
        let tw = wrap_angle(mul_div(nv, 6283, 1000));
        let ct = cos_milli(tw);
        let st = sin_milli(tw);
        let fr = v3_frame(dir);
        proof {
            lemma_pt_scale_bound(fr.0@, ct as int, 1000, 1000, 1000);
            lemma_pt_scale_bound(fr.1@, st as int, 1000, 1000, 1000);
        }
        let azimuth = v3_add(v3_scale(fr.0, ct), v3_scale(fr.1, st));
        proof {
            lemma_pt_scale_bound(dir@, cb as int, 1000, 1000, 1000);
            lemma_pt_scale_bound(azimuth@, sb as int, 2000, 1000, 2000);
        }
        let d2 = v3_unit(v3_add(v3_scale(dir, cb), v3_scale(azimuth, sb)));
        let dscale: i64 = depth * 200 + 800;
        proof {
            assert(0 <= lpick as int * dscale as int <= 74_000_000) by (nonlinear_arith)
                requires
                    0 < lpick as int <= 10_000,
                    800 <= dscale as int <= 7400,
            ;
            lemma_tdiv_bound(lpick as int * dscale as int, 1000, 74_000);
        }
        let length = mul_div(lpick, dscale, 1000);
        proof {
            lemma_pt_scale_bound(d2@, length as int, 1000, 74_000, 74_000);
        }
        let step = v3_scale(d2, length);
        let p2 = v3_add(pos, step);
        proof {
            assert((radius as int) * (taper as int) < (radius as int) * 1000 && 0 <= (radius
                as int) * (taper as int)) by (nonlinear_arith)
                requires
                    1 <= radius as int,
                    0 < taper as int <= 999,
            ;
            lemma_tdiv_lt(radius as int * taper as int, 1000, radius as int);
        }
        let r2 = mul_div(radius, taper, 1000);
        let child = grow_node(rng, noise, cfg, depth - 1, p2, d2, r2);
        let ghost tkc = rng.taken();
        let mut rest = grow_children(rng, noise, cfg, depth, pos, dir, radius, k - 1);
        let ghost rest0 = rest@;
        let mut kids: Vec<TreeNode> = Vec::new();
        kids.push(child);
        kids.append(&mut rest);
        proof {
            let fin = final(rng).taken();
            let i0 = tk0.len() as int;
            assert(tk0.is_prefix_of(tk1)) by {
                assert(tk0 =~= tk1.subrange(0, i0));
            }
            assert(tk1.is_prefix_of(tk2)) by {
                assert(tk1 =~= tk2.subrange(0, tk1.len() as int));
            }
            assert(tk2.is_prefix_of(tk3)) by {
                assert(tk2 =~= tk3.subrange(0, tk2.len() as int));
            }
            lemma_prefix_trans(tk2, tk3, tkc);
            lemma_prefix_trans(tk1, tk2, tkc);
            lemma_prefix_trans(tk0, tk1, tkc);
            lemma_prefix_trans(tk0, tkc, fin);
            lemma_prefix_trans(tk1, tkc, fin);
            lemma_prefix_trans(tk2, tkc, fin);
            lemma_prefix_trans(tk3, tkc, fin);
            lemma_prefix_index(tk1, fin);
            lemma_prefix_index(tk2, fin);
            lemma_prefix_index(tk3, fin);
            assert(tk3.len() as int == i0 + 3);
            assert(draw_at(fin, i0) == craw as int);
            assert(draw_at(fin, i0 + 1) == lraw as int);
            assert(draw_at(fin, i0 + 2) == traw as int);
            // the drawn parameters match the model's
            assert(bend as int == spec_pick(draw_at(fin, i0), -cfg.bend_max as int, cfg.bend_max as int));
            assert(lpick as int == spec_pick(
                draw_at(fin, i0 + 1),
                cfg.length_min as int,
                cfg.length_max as int,
            ));
            assert(taper as int == spec_pick(
                draw_at(fin, i0 + 2),
                cfg.taper_min as int,
                cfg.taper_max as int,
            ));
            // the geometry matches the model's
            let nc = noise_coord(pos@);
            assert(nv as int == noise.at(nc.x, nc.y, nc.z));
            assert(tw as int == twist_of(nv as int));
            assert(d2@ == child_dir(dir@, nv as int, bend as int));
            assert(length as int == seg_length(*cfg, depth as int, lpick as int));
            assert(p2@ == pt_add(pos@, pt_scale(d2@, seg_length(*cfg, depth as int, lpick as int))));
            assert(r2 as int == tdiv(radius as int * taper as int, 1000));
            // lift the child's model window to the final record
            lemma_node_frame(
                noise,
                *cfg,
                depth as int - 1,
                p2@,
                d2@,
                r2 as int,
                tkc,
                fin,
                i0 + 3,
            );
            // assemble the sequence views
            assert(kids@ =~= seq![child] + rest0);
            assert(kids@.len() == k as nat);
            assert(kids@[0] == child);
            assert(kids@.drop_first() =~= rest0);
            assert(views_of(kids@) == seq![node_view(child)] + views_of(rest0));
            lemma_views_of_index(kids@);
            lemma_views_of_index(rest0);
            assert(gen_children_model(
                noise,
                *cfg,
                depth as int,
                pos@,
                dir@,
                radius as int,
                k as int,
                fin,
                i0,
            ) == (views_of(kids@), fin.len() as int));
            assert forall|i: int| 0 <= i < views_of(kids@).len() implies (#[trigger] views_of(
                kids@,
            )[i]).radius < radius as int && tapered(views_of(kids@)[i]) && leaves_ok(
                views_of(kids@)[i],
                cfg.min_radius as int,
                depth as int - 1,
            ) && depth_bounded(views_of(kids@)[i], depth as int - 1) && node_bounded(
                views_of(kids@)[i],
            ) by {
                if i == 0 {
                    assert(views_of(kids@)[0] == node_view(child));
                } else {
                    assert(views_of(kids@)[i] == node_view(kids@[i]));
                    assert(kids@[i] == rest0[i - 1]);
                    assert(views_of(rest0)[i - 1] == node_view(rest0[i - 1]));
                }
            }
            if s0.scripted() && replays_script(&s0) {
                lemma_replay_step(&s0, &s1, craw);
                lemma_replay_step(&s1, &s2, lraw);
                lemma_replay_step(&s2, &s3, traw);
            }
        }
        kids
    }
}

/// Generate a branch graph from a random source, a noise field, and a
/// configuration.  An invalid configuration is rejected with the first
/// violated rule and nothing is drawn; a valid one yields a root at the
/// origin growing up the y axis with the configured starting radius, whose
/// subtree is a pure function of the configuration, the noise field, and the
/// values drawn from the random source, and satisfies the tapering, leaf,
/// depth, and bounds invariants.
pub fn generate_tree<R: RandomSource, N: NoiseField>(
    rng: &mut R,
    noise: &N,
    cfg: &TreeConfig,
) -> (res: Result<TreeNode, ConfigError>)
    ensures
        res is Err <==> config_check(*cfg) is Some,
        res matches Err(e) ==> config_check(*cfg) == Some(e) && final(rng).taken() == old(
            rng,
        ).taken(),
        res matches Ok(t) ==> {
            &&& old(rng).taken().is_prefix_of(final(rng).taken())
            &&& gen_node_model(
                noise,
                *cfg,
                cfg.max_depth as int,
                pt_zero(),
                pt_up(),
                cfg.start_radius as int,
                final(rng).taken(),
                old(rng).taken().len() as int,
            ) == (node_view(t), final(rng).taken().len() as int)
            &&& node_view(t).position == pt_zero()
            &&& node_view(t).direction == pt_up()
            &&& node_view(t).radius == cfg.start_radius as int
            &&& node_view(t).is_leaf == (cfg.max_depth == 0)
            &&& tapered(node_view(t))
            &&& leaves_ok(node_view(t), cfg.min_radius as int, cfg.max_depth as int)
            &&& depth_bounded(node_view(t), cfg.max_depth as int)
            &&& node_bounded(node_view(t))
        },
        (old(rng).scripted() && replays_script(old(rng))) ==> final(rng).scripted()
            && final(rng).script() == old(rng).script() && replays_script(final(rng)),
{
    match cfg.validate() {
        Some(e) => Err(e),
        None => {
            proof {
                assert(80_000 * cfg.max_depth as int <= 2_560_000);
                assert(1000 * 1000 <= 1_000_000 < (1000 + 1) * (1000 + 1)) by (nonlinear_arith);
                crate::num::lemma_sqrt_floor_unique(1_000_000nat, 1000nat);
                assert(pt_norm(pt_up()) == 1000);
            }
            let root = grow_node(
                rng,
                noise,
                cfg,
                cfg.max_depth,
                V3::zero(),
                V3::up(),
                cfg.start_radius,
            );
            Ok(root)
        },
    }
}

/// Generate a branch graph by replaying a fixed script of draws.  The graph
/// is a pure function of the script, the noise field, and the configuration
/// alone, so two runs with equal scripts provably agree
/// (`lemma_scripted_runs_agree`).
pub fn generate_tree_scripted<N: NoiseField>(
    script: Vec<u64>,
    noise: &N,
    cfg: &TreeConfig,
) -> (res: Result<TreeNode, ConfigError>)
    ensures
        res is Err <==> config_check(*cfg) is Some,
        res matches Err(e) ==> config_check(*cfg) == Some(e),
        res matches Ok(t) ==> scripted_result(noise, *cfg, script@, node_view(t))
            && config_valid(*cfg) && tapered(node_view(t)) && leaves_ok(
            node_view(t),
            cfg.min_radius as int,
            cfg.max_depth as int,
        ) && depth_bounded(node_view(t), cfg.max_depth as int) && node_bounded(node_view(t)),
{
    let mut rng = ScriptRandom::from_script(script);
    let res = generate_tree(&mut rng, noise, cfg);
    proof {
        if res is Ok {
            let t = res->Ok_0;
            let n = rng.taken().len();
            assert(rng.taken() =~= tape_of(script@, n));
            assert(gen_node_model(
                noise,
                *cfg,
                cfg.max_depth as int,
                pt_zero(),
                pt_up(),
                cfg.start_radius as int,
                tape_of(script@, n),
                0,
            ) == (node_view(t), n as int));
        }
    }
    res
}

} // verus!
