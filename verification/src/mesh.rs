//! The mesh synthesizer.
//!
//! A finished branch graph is walked once, depth first, and two triangle
//! meshes are emitted: a tapered-cylinder segment for every parent-to-child
//! edge, and a billboard quad for every leaf.  The whole emission is mirrored
//! by spec models (`trunk_model`, `leaf_model`), so the buffers are provably
//! a pure function of the graph and the mesh configuration.

use crate::branch::{
    config_check, depth_bounded, generate_tree, leaves_ok, lemma_views_of_index, node_bounded,
    node_view, tapered, views_of, ConfigError, GNode, TreeConfig, TreeNode,
};
use crate::field::NoiseField;
use crate::random::{replays_script, RandomSource};
use crate::num::{
    cos_milli, lemma_div_mod_exact, sin_milli, spec_cos, spec_sin, spec_wrap, tdiv, wrap_angle,
};
use crate::vec3::{
    lemma_pt_scale_bound, pt_add, pt_bounded, pt_frame, pt_scale, pt_sub, pt_unit, v3_add,
    v3_frame, v3_scale, v3_sub, v3_unit, Pt, V3,
};
use vstd::prelude::*;

verus! {

/// The configuration surface of the synthesizer.
#[derive(Clone, Copy, Debug, PartialEq, Eq, Structural)]
pub struct MeshConfig {
    /// Number of segments in each vertex ring around a branch.
    pub segments: u64,
    /// Half-size of a leaf billboard, in milli-units.
    pub leaf_half: i64,
}

/// A configuration the synthesizer accepts.
pub open spec fn mesh_config_valid(c: MeshConfig) -> bool {
    &&& 1 <= c.segments <= 64
    &&& 0 < c.leaf_half <= 10_000
}

impl MeshConfig {
    /// The stock configuration: eight ring segments
    /// and leaf half-size 0.2.
    pub fn standard() -> (c: MeshConfig)
        ensures
            c == (MeshConfig { segments: 8, leaf_half: 200 }),
            mesh_config_valid(c),
    {
        MeshConfig { segments: 8, leaf_half: 200 }
    }

    /// Check a configuration.
    pub fn is_valid(&self) -> (r: bool)
        ensures
            r == mesh_config_valid(*self),
    {
        1 <= self.segments && self.segments <= 64 && 0 < self.leaf_half && self.leaf_half
            <= 10_000
    }
}

/// A texture coordinate in milli-units.
#[derive(Clone, Copy, Debug, PartialEq, Eq, Structural)]
pub struct Uv {
    pub u: i64,
    pub v: i64,
}

impl View for Uv {
    type V = (int, int);

    open spec fn view(&self) -> (int, int) {
        (self.u as int, self.v as int)
    }
}

/// The trunk and branch surface geometry: an untextured triangle list.
pub struct TrunkMesh {
    pub positions: Vec<V3>,
    pub normals: Vec<V3>,
    pub indices: Vec<u64>,
}

/// The leaf billboard geometry: a textured triangle list.
pub struct LeafMesh {
    pub positions: Vec<V3>,
    pub normals: Vec<V3>,
    pub uvs: Vec<Uv>,
    pub indices: Vec<u64>,
}

/// Mathematical image of a trunk mesh.
pub ghost struct GTrunk {
    pub positions: Seq<Pt>,
    pub normals: Seq<Pt>,
    pub indices: Seq<int>,
}

/// Mathematical image of a leaf mesh.
pub ghost struct GLeaf {
    pub positions: Seq<Pt>,
    pub normals: Seq<Pt>,
    pub uvs: Seq<(int, int)>,
    pub indices: Seq<int>,
}

impl View for TrunkMesh {
    type V = GTrunk;

    open spec fn view(&self) -> GTrunk {
        GTrunk {
            positions: self.positions@.map_values(|p: V3| p@),
            normals: self.normals@.map_values(|p: V3| p@),
            indices: self.indices@.map_values(|x: u64| x as int),
        }
    }
}

impl View for LeafMesh {
    type V = GLeaf;

    open spec fn view(&self) -> GLeaf {
        GLeaf {
            positions: self.positions@.map_values(|p: V3| p@),
            normals: self.normals@.map_values(|p: V3| p@),
            uvs: self.uvs@.map_values(|p: Uv| p@),
            indices: self.indices@.map_values(|x: u64| x as int),
        }
    }
}

pub open spec fn gt_empty() -> GTrunk {
    GTrunk { positions: Seq::empty(), normals: Seq::empty(), indices: Seq::empty() }
}

pub open spec fn gl_empty() -> GLeaf {
    GLeaf {
        positions: Seq::empty(),
        normals: Seq::empty(),
        uvs: Seq::empty(),
        indices: Seq::empty(),
    }
}

pub open spec fn gt_concat(a: GTrunk, b: GTrunk) -> GTrunk {
    GTrunk {
        positions: a.positions + b.positions,
        normals: a.normals + b.normals,
        indices: a.indices + b.indices,
    }
}

pub open spec fn gl_concat(a: GLeaf, b: GLeaf) -> GLeaf {
    GLeaf {
        positions: a.positions + b.positions,
        normals: a.normals + b.normals,
        uvs: a.uvs + b.uvs,
        indices: a.indices + b.indices,
    }
}

/// Number of parent-to-child edges the synthesizer walks.
pub open spec fn edge_count(n: GNode) -> int
    decreases n, 1int,
{
    if n.is_leaf {
        0
    } else {
        kids_edge_count(n.children)
    }
}

pub open spec fn kids_edge_count(s: Seq<GNode>) -> int
    decreases s, 0int,
{
    if s.len() == 0 {
        0
    } else {
        1 + edge_count(s[0]) + kids_edge_count(s.drop_first())
    }
}

/// Number of leaves the synthesizer emits a billboard for.
pub open spec fn leaf_count(n: GNode) -> int
    decreases n, 1int,
{
    if n.is_leaf {
        1
    } else {
        kids_leaf_count(n.children)
    }
}

pub open spec fn kids_leaf_count(s: Seq<GNode>) -> int
    decreases s, 0int,
{
    if s.len() == 0 {
        0
    } else {
        leaf_count(s[0]) + kids_leaf_count(s.drop_first())
    }
}

/// The ring angle of segment `i` out of `s`, wrapped into [-pi, pi].
pub open spec fn ring_angle(s: int, i: int) -> int {
    spec_wrap(tdiv(i * 6283, s))
}

/// The unit radial offset of ring vertex `i`: cos * right + sin * forward.
pub open spec fn ring_offset(right: Pt, fwd: Pt, s: int, i: int) -> Pt {
    let a = ring_angle(s, i);
    pt_add(pt_scale(right, spec_cos(a)), pt_scale(fwd, spec_sin(a)))
}

/// The positions of one tapered segment: for each ring step, a vertex on the
/// parent ring then a vertex on the child ring.
pub open spec fn seg_positions(pp: Pt, pr: int, cp: Pt, cr: int, s: int) -> Seq<Pt> {
    let d = pt_unit(pt_sub(cp, pp));
    let (right, fwd) = pt_frame(d);
    Seq::new(
        (2 * (s + 1)) as nat,
        |j: int|
            {
                let off = ring_offset(right, fwd, s, j / 2);
                if j % 2 == 0 {
                    pt_add(pp, pt_scale(off, pr))
                } else {
                    pt_add(cp, pt_scale(off, cr))
                }
            },
    )
}

/// The normals of one tapered segment: the radial offset, twice per step.
pub open spec fn seg_normals(pp: Pt, cp: Pt, s: int) -> Seq<Pt> {
    let d = pt_unit(pt_sub(cp, pp));
    let (right, fwd) = pt_frame(d);
    Seq::new((2 * (s + 1)) as nat, |j: int| ring_offset(right, fwd, s, j / 2))
}

/// The indices of one tapered segment: two triangles per quad, wound
/// consistently outward.
pub open spec fn seg_indices(base: int, s: int) -> Seq<int> {
    Seq::new(
        (6 * s) as nat,
        |j: int|
            {
                let q = j / 6;
                let w = j % 6;
                if w == 0 {
                    base + 2 * q
                } else if w == 1 {
                    base + 2 * q + 1
                } else if w == 2 {
                    base + 2 * q + 2
                } else if w == 3 {
                    base + 2 * q + 1
                } else if w == 4 {
                    base + 2 * q + 3
                } else {
                    base + 2 * q + 2
                }
            },
    )
}

/// One tapered segment between a parent and a child node.
pub open spec fn seg_model(pp: Pt, pr: int, cp: Pt, cr: int, s: int, base: int) -> GTrunk {
    GTrunk {
        positions: seg_positions(pp, pr, cp, cr, s),
        normals: seg_normals(pp, cp, s),
        indices: seg_indices(base, s),
    }
}

/// The trunk geometry of a whole subtree, emitted depth first with vertex
/// indices counted from `base`.
pub open spec fn trunk_model(n: GNode, s: int, base: int) -> GTrunk
    decreases n, 1int,
{
    if n.is_leaf {
        gt_empty()
    } else {
        trunk_kids_model(n, n.children, s, base)
    }
}

pub open spec fn trunk_kids_model(n: GNode, kids: Seq<GNode>, s: int, base: int) -> GTrunk
    decreases kids, 0int,
{
    if kids.len() == 0 {
        gt_empty()
    } else {
        let segm = seg_model(n.position, n.radius, kids[0].position, kids[0].radius, s, base);
        let sub = trunk_model(kids[0], s, base + segm.positions.len());
        let rest = trunk_kids_model(
            n,
            kids.drop_first(),
            s,
            base + segm.positions.len() + sub.positions.len(),
        );
        gt_concat(segm, gt_concat(sub, rest))
    }
}

/// One leaf billboard: a quad centred at the leaf, in the plane of its
/// frame, with the growth direction as normal and a fixed texture square.
/// The two triangles fan out from the first corner, wound so that each face
/// normal agrees with the stored growth-direction normal.
pub open spec fn leaf_quad_model(p: Pt, dir: Pt, h: int, base: int) -> GLeaf {
    let (right, fwd) = pt_frame(dir);
    let o1 = pt_scale(pt_add(fwd, right), h);
    let o2 = pt_scale(pt_sub(fwd, right), h);
    GLeaf {
        positions: seq![pt_add(p, o1), pt_add(p, o2), pt_sub(p, o1), pt_sub(p, o2)],
        normals: seq![dir, dir, dir, dir],
        uvs: seq![(0int, 0int), (1000int, 0int), (1000int, 1000int), (0int, 1000int)],
        indices: seq![base, base + 2, base + 1, base, base + 3, base + 2],
    }
}

/// The leaf geometry of a whole subtree, emitted depth first with vertex
/// indices counted from `base`.
pub open spec fn leaf_model(n: GNode, h: int, base: int) -> GLeaf
    decreases n, 1int,
{
    if n.is_leaf {
        leaf_quad_model(n.position, n.direction, h, base)
    } else {
        leaf_kids_model(n.children, h, base)
    }
}

pub open spec fn leaf_kids_model(kids: Seq<GNode>, h: int, base: int) -> GLeaf
    decreases kids, 0int,
{
    if kids.len() == 0 {
        gl_empty()
    } else {
        let first = leaf_model(kids[0], h, base);
        let rest = leaf_kids_model(kids.drop_first(), h, base + first.positions.len());
        gl_concat(first, rest)
    }
}

/// Shape of the trunk model: the buffer-sizing law and index validity.
pub proof fn lemma_trunk_model_shape(n: GNode, s: int, base: int)
    requires
        1 <= s,
    ensures
        ({
            let m = trunk_model(n, s, base);
            &&& 0 <= edge_count(n)
            &&& m.positions.len() == 2 * (s + 1) * edge_count(n)
            &&& m.normals.len() == m.positions.len()
            &&& m.indices.len() == 6 * s * edge_count(n)
            &&& forall|j: int|
                0 <= j < m.indices.len() ==> base <= #[trigger] m.indices[j] < base
                    + m.positions.len()
        }),
    decreases n, 1int,
{
    if !n.is_leaf {
        lemma_trunk_kids_shape(n, n.children, s, base);
    } else {
        assert(2 * (s + 1) * 0 == 0) by (nonlinear_arith);
        assert(6 * s * 0 == 0) by (nonlinear_arith);
    }
}

pub proof fn lemma_trunk_kids_shape(n: GNode, kids: Seq<GNode>, s: int, base: int)
    requires
        1 <= s,
    ensures
        ({
            let m = trunk_kids_model(n, kids, s, base);
            &&& 0 <= kids_edge_count(kids)
            &&& m.positions.len() == 2 * (s + 1) * kids_edge_count(kids)
            &&& m.normals.len() == m.positions.len()
            &&& m.indices.len() == 6 * s * kids_edge_count(kids)
            &&& forall|j: int|
                0 <= j < m.indices.len() ==> base <= #[trigger] m.indices[j] < base
                    + m.positions.len()
        }),
    decreases kids, 0int,
{
    if kids.len() == 0 {
        assert(2 * (s + 1) * 0 == 0) by (nonlinear_arith);
        assert(6 * s * 0 == 0) by (nonlinear_arith);
    } else {
        let segm = seg_model(n.position, n.radius, kids[0].position, kids[0].radius, s, base);
        let b1 = base + segm.positions.len();
        lemma_trunk_model_shape(kids[0], s, b1);
        let sub = trunk_model(kids[0], s, b1);
        let b2 = b1 + sub.positions.len();
        lemma_trunk_kids_shape(n, kids.drop_first(), s, b2);
        let rest = trunk_kids_model(n, kids.drop_first(), s, b2);
        let e0 = edge_count(kids[0]);
        let er = kids_edge_count(kids.drop_first());
        let m = trunk_kids_model(n, kids, s, base);
        assert(m.positions.len() == 2 * (s + 1) + 2 * (s + 1) * e0 + 2 * (s + 1) * er);
        assert(2 * (s + 1) + 2 * (s + 1) * e0 + 2 * (s + 1) * er == 2 * (s + 1) * (1 + e0 + er))
            by (nonlinear_arith);
        assert(m.indices.len() == 6 * s + 6 * s * e0 + 6 * s * er);
        assert(6 * s + 6 * s * e0 + 6 * s * er == 6 * s * (1 + e0 + er)) by (nonlinear_arith);
        assert forall|j: int| 0 <= j < m.indices.len() implies base <= #[trigger] m.indices[j]
            < base + m.positions.len() by {
            let sl = segm.indices.len() as int;
            if j < sl {
                assert(m.indices[j] == segm.indices[j]);
                let q = j / 6;
                let w = j % 6;
                assert(0 <= w < 6);
                assert(q * 6 <= j) by {
                    vstd::arithmetic::div_mod::lemma_fundamental_div_mod(j, 6);
                }
                assert(q < s) by {
                    if q >= s {
                        assert(j == 6 * q + w) by {
                            vstd::arithmetic::div_mod::lemma_fundamental_div_mod(j, 6);
                        }
                        assert(6 * q >= 6 * s) by (nonlinear_arith)
                            requires
                                q >= s,
                        ;
                    }
                }
                assert(0 <= q) by {
                    vstd::arithmetic::div_mod::lemma_div_pos_is_pos(j, 6);
                }
                assert(base <= segm.indices[j] < base + 2 * (s + 1));
                assert(2 * (s + 1) <= m.positions.len()) by (nonlinear_arith)
                    requires
                        m.positions.len() == 2 * (s + 1) * (1 + e0 + er),
                        0 <= e0,
                        0 <= er,
                        1 <= s,
                ;
            } else if j < sl + sub.indices.len() {
                assert(m.indices[j] == sub.indices[j - sl]);
                assert(2 * (s + 1) * (1 + e0 + er) >= 2 * (s + 1) + 2 * (s + 1) * e0)
                    by (nonlinear_arith)
                    requires
                        0 <= e0,
                        0 <= er,
                        1 <= s,
                ;
            } else {
                assert(m.indices[j] == rest.indices[j - sl - sub.indices.len()]);
            }
        }
    }
}

/// Shape of the leaf model: the buffer-sizing law and index validity.
pub proof fn lemma_leaf_model_shape(n: GNode, h: int, base: int)
    ensures
        ({
            let m = leaf_model(n, h, base);
            &&& 0 <= leaf_count(n)
            &&& m.positions.len() == 4 * leaf_count(n)
            &&& m.normals.len() == m.positions.len()
            &&& m.uvs.len() == m.positions.len()
            &&& m.indices.len() == 6 * leaf_count(n)
            &&& forall|j: int|
                0 <= j < m.indices.len() ==> base <= #[trigger] m.indices[j] < base
                    + m.positions.len()
        }),
    decreases n, 1int,
{
    if !n.is_leaf {
        lemma_leaf_kids_shape(n.children, h, base);
    }
}

pub proof fn lemma_leaf_kids_shape(kids: Seq<GNode>, h: int, base: int)
    ensures
        ({
            let m = leaf_kids_model(kids, h, base);
            &&& 0 <= kids_leaf_count(kids)
            &&& m.positions.len() == 4 * kids_leaf_count(kids)
            &&& m.normals.len() == m.positions.len()
            &&& m.uvs.len() == m.positions.len()
            &&& m.indices.len() == 6 * kids_leaf_count(kids)
            &&& forall|j: int|
                0 <= j < m.indices.len() ==> base <= #[trigger] m.indices[j] < base
                    + m.positions.len()
        }),
    decreases kids, 0int,
{
    if kids.len() != 0 {
        lemma_leaf_model_shape(kids[0], h, base);
        let first = leaf_model(kids[0], h, base);
        let b1 = base + first.positions.len();
        lemma_leaf_kids_shape(kids.drop_first(), h, b1);
        let rest = leaf_kids_model(kids.drop_first(), h, b1);
        let m = leaf_kids_model(kids, h, base);
        assert forall|j: int| 0 <= j < m.indices.len() implies base <= #[trigger] m.indices[j]
            < base + m.positions.len() by {
            if j < first.indices.len() {
                assert(m.indices[j] == first.indices[j]);
            } else {
                assert(m.indices[j] == rest.indices[j - first.indices.len()]);
            }
        }
    }
}

/// Upper bound on the edge count of a depth-bounded graph with at most three
/// children per node.
pub open spec fn edge_cap(d: int) -> int
    decreases d,
{
    if d <= 0 {
        0
    } else {
        3 + 3 * edge_cap(d - 1)
    }
}

/// Upper bound on the leaf count of such a graph.
pub open spec fn leaf_cap(d: int) -> int
    decreases d,
{
    if d <= 0 {
        1
    } else {
        3 * leaf_cap(d - 1)
    }
}

pub proof fn lemma_caps_positive(d: int)
    ensures
        0 <= edge_cap(d),
        1 <= leaf_cap(d),
    decreases (if d >= 0 { d } else { 0 }),
{
    if d > 0 {
        lemma_caps_positive(d - 1);
    }
}

/// A depth-bounded, machine-bounded graph has capped edge and leaf counts.
pub proof fn lemma_counts_capped(n: GNode, d: int)
    requires
        depth_bounded(n, d),
        node_bounded(n),
        0 <= d,
    ensures
        edge_count(n) <= edge_cap(d),
        leaf_count(n) <= leaf_cap(d),
    decreases n, 1int,
{
    lemma_caps_positive(d);
    if n.is_leaf {
    } else {
        if n.children.len() == 0 {
            assert(edge_count(n) == 0);
            assert(leaf_count(n) == 0);
        } else {
            lemma_kids_counts_capped(n.children, d - 1);
            let len = n.children.len() as int;
            assert(len * (1 + edge_cap(d - 1)) <= 3 * (1 + edge_cap(d - 1)))
                by (nonlinear_arith)
                requires
                    0 <= len <= 3,
                    0 <= edge_cap(d - 1),
            ;
            assert(len * leaf_cap(d - 1) <= 3 * leaf_cap(d - 1)) by (nonlinear_arith)
                requires
                    0 <= len <= 3,
                    0 <= leaf_cap(d - 1),
            ;
        }
    }
}

pub proof fn lemma_kids_counts_capped(kids: Seq<GNode>, d: int)
    requires
        forall|i: int|
            0 <= i < kids.len() ==> depth_bounded(#[trigger] kids[i], d) && node_bounded(kids[i]),
        0 <= d,
    ensures
        kids_edge_count(kids) <= kids.len() * (1 + edge_cap(d)),
        kids_leaf_count(kids) <= kids.len() * leaf_cap(d),
        0 <= kids_edge_count(kids),
        0 <= kids_leaf_count(kids),
    decreases kids, 0int,
{
    lemma_caps_positive(d);
    if kids.len() == 0 {
    } else {
        lemma_counts_capped(kids[0], d);
        lemma_counts_nonneg(kids[0]);
        assert forall|i: int| 0 <= i < kids.drop_first().len() implies depth_bounded(
            #[trigger] kids.drop_first()[i],
            d,
        ) && node_bounded(kids.drop_first()[i]) by {
            assert(kids.drop_first()[i] == kids[i + 1]);
        }
        lemma_kids_counts_capped(kids.drop_first(), d);
        let len = kids.len() as int;
        assert((len - 1) * (1 + edge_cap(d)) + (1 + edge_cap(d)) == len * (1 + edge_cap(d)))
            by (nonlinear_arith);
        assert((len - 1) * leaf_cap(d) + leaf_cap(d) == len * leaf_cap(d)) by (nonlinear_arith);
    }
}

/// Emit one tapered segment between a parent ring and a child ring.
fn add_branch(pp: V3, pr: i64, cp: V3, cr: i64, s: u64, m: &mut TrunkMesh)
    requires
        1 <= s <= 64,
        pt_bounded(pp@, 10_000_000),
        pt_bounded(cp@, 10_000_000),
        0 <= pr <= 1_000_000,
        0 <= cr <= 1_000_000,
        old(m)@.positions.len() <= 500_000_000_000_000_000,
    ensures
        final(m)@ == gt_concat(
            old(m)@,
            seg_model(pp@, pr as int, cp@, cr as int, s as int, old(m)@.positions.len() as int),
        ),
{
    let ghost g0 = m@;
    let base: u64 = m.positions.len() as u64;
    proof {
        assert(base as int == g0.positions.len());
    }
    let dir = v3_unit(v3_sub(cp, pp));
    let fr = v3_frame(dir);
    let right = fr.0;
    let fwd = fr.1;
    let ghost sp = seg_positions(pp@, pr as int, cp@, cr as int, s as int);
    let ghost sn = seg_normals(pp@, cp@, s as int);
    let ghost si = seg_indices(base as int, s as int);
    proof {
        assert((right@, fwd@) == pt_frame(pt_unit(pt_sub(cp@, pp@))));
        assert(sp.len() == 2 * (s + 1));
        assert(sn.len() == 2 * (s + 1));
        assert(si.len() == 6 * s);
        assert(m@.positions =~= g0.positions + sp.take(0));
        assert(m@.normals =~= g0.normals + sn.take(0));
        assert(m@.indices =~= g0.indices + si.take(0));
    }
    let mut i: u64 = 0;
    while i <= s
        invariant
            i <= s + 1,
            1 <= s <= 64,
            pt_bounded(pp@, 10_000_000),
            pt_bounded(cp@, 10_000_000),
            0 <= pr <= 1_000_000,
            0 <= cr <= 1_000_000,
            pt_bounded(right@, 1000),
            pt_bounded(fwd@, 1000),
            (right@, fwd@) == pt_frame(pt_unit(pt_sub(cp@, pp@))),
            base as int == g0.positions.len(),
            g0.positions.len() <= 500_000_000_000_000_000,
            sp == seg_positions(pp@, pr as int, cp@, cr as int, s as int),
            sn == seg_normals(pp@, cp@, s as int),
            si == seg_indices(base as int, s as int),
            m@.positions == g0.positions + sp.take(2 * i as int),
            m@.normals == g0.normals + sn.take(2 * i as int),
            m@.indices == g0.indices + si.take(
                6 * (if i as int <= s as int {
                    i as int
                } else {
                    s as int
                }),
            ),
        decreases s + 1 - i,
    {
        let araw: u64 = i * 6283 / s;
        proof {
            assert(i as int * 6283 <= s as int * 6283);
            vstd::arithmetic::div_mod::lemma_div_is_ordered(
                i as int * 6283,
                s as int * 6283,
                s as int,
            );
            lemma_div_mod_exact(6283, s as int, 0);
            assert(araw as int == tdiv(i as int * 6283, s as int));
            vstd::arithmetic::div_mod::lemma_div_pos_is_pos(i as int * 6283, s as int);
        }
        let a = wrap_angle(araw as i64);
        let ca = cos_milli(a);
        let sa = sin_milli(a);
        proof {
            lemma_pt_scale_bound(right@, ca as int, 1000, 1000, 1000);
            lemma_pt_scale_bound(fwd@, sa as int, 1000, 1000, 1000);
        }
        let off = v3_add(v3_scale(right, ca), v3_scale(fwd, sa));
        proof {
            lemma_pt_scale_bound(off@, pr as int, 2000, 1_000_000, 2_000_000);
            lemma_pt_scale_bound(off@, cr as int, 2000, 1_000_000, 2_000_000);
        }
        let vp = v3_add(pp, v3_scale(off, pr));
        let vc = v3_add(cp, v3_scale(off, cr));
        let ghost mpos0 = m@.positions;
        let ghost mnrm0 = m@.normals;
        m.positions.push(vp);
        m.positions.push(vc);
        m.normals.push(off);
        m.normals.push(off);
        proof {
            lemma_div_mod_exact(i as int, 2, 0);
            lemma_div_mod_exact(i as int, 2, 1);
            assert(ring_angle(s as int, i as int) == a as int);
            assert(ring_offset(right@, fwd@, s as int, i as int) == off@);
            assert(sp[2 * i as int] == vp@);
            assert(sp[2 * i as int + 1] == vc@);
            assert(sn[2 * i as int] == off@);
            assert(sn[2 * i as int + 1] == off@);
            assert(m@.positions =~= mpos0.push(vp@).push(vc@));
            assert(m@.normals =~= mnrm0.push(off@).push(off@));
            assert(m@.positions =~= g0.positions + sp.take(2 * (i + 1) as int));
            assert(m@.normals =~= g0.normals + sn.take(2 * (i + 1) as int));
        }
        if i < s {
            let i0: u64 = base + 2 * i;
            let i1: u64 = i0 + 1;
            let i2: u64 = i0 + 2;
            let i3: u64 = i0 + 3;
            let ghost midx0 = m@.indices;
            m.indices.push(i0);
            m.indices.push(i1);
            m.indices.push(i2);
            m.indices.push(i1);
            m.indices.push(i3);
            m.indices.push(i2);
            proof {
                lemma_div_mod_exact(i as int, 6, 0);
                lemma_div_mod_exact(i as int, 6, 1);
                lemma_div_mod_exact(i as int, 6, 2);
                lemma_div_mod_exact(i as int, 6, 3);
                lemma_div_mod_exact(i as int, 6, 4);
                lemma_div_mod_exact(i as int, 6, 5);
                assert(si[6 * i as int] == i0 as int);
                assert(si[6 * i as int + 1] == i1 as int);
                assert(si[6 * i as int + 2] == i2 as int);
                assert(si[6 * i as int + 3] == i1 as int);
                assert(si[6 * i as int + 4] == i3 as int);
                assert(si[6 * i as int + 5] == i2 as int);
                assert(m@.indices =~= midx0.push(i0 as int).push(i1 as int).push(i2 as int).push(
                    i1 as int,
                ).push(i3 as int).push(i2 as int));
                assert(m@.indices =~= g0.indices + si.take(6 * (i + 1) as int));
            }
        }
        i = i + 1;
    }
    proof {
        assert(i == s + 1);
        assert(sp.take(2 * i as int) =~= sp);
        assert(sn.take(2 * i as int) =~= sn);
        assert(si.take(6 * s as int) =~= si);
        assert(final(m)@.positions == g0.positions + sp);
        assert(final(m)@.normals == g0.normals + sn);
        assert(final(m)@.indices == g0.indices + si);
    }
}

/// Emit one leaf billboard quad.
fn add_leaf(p: V3, dirv: V3, h: i64, m: &mut LeafMesh)
    requires
        pt_bounded(p@, 10_000_000),
        pt_bounded(dirv@, 1000),
        0 < h <= 10_000,
        old(m)@.positions.len() <= 500_000_000_000_000_000,
    ensures
        final(m)@ == gl_concat(
            old(m)@,
            leaf_quad_model(p@, dirv@, h as int, old(m)@.positions.len() as int),
        ),
{
    let ghost g0 = m@;
    let base: u64 = m.positions.len() as u64;
    proof {
        assert(base as int == g0.positions.len());
    }
    let fr = v3_frame(dirv);
    let right = fr.0;
    let fwd = fr.1;
    let sum = v3_add(fwd, right);
    let diff = v3_sub(fwd, right);
    proof {
        lemma_pt_scale_bound(sum@, h as int, 2000, 10_000, 20_000);
        lemma_pt_scale_bound(diff@, h as int, 2000, 10_000, 20_000);
    }
    let o1 = v3_scale(sum, h);
    let o2 = v3_scale(diff, h);
    let c1 = v3_add(p, o1);
    let c2 = v3_add(p, o2);
    let c3 = v3_sub(p, o1);
    let c4 = v3_sub(p, o2);
    m.positions.push(c1);
    m.positions.push(c2);
    m.positions.push(c3);
    m.positions.push(c4);
    m.normals.push(dirv);
    m.normals.push(dirv);
    m.normals.push(dirv);
    m.normals.push(dirv);
    m.uvs.push(Uv { u: 0, v: 0 });
    m.uvs.push(Uv { u: 1000, v: 0 });
    m.uvs.push(Uv { u: 1000, v: 1000 });
    m.uvs.push(Uv { u: 0, v: 1000 });
    m.indices.push(base);
    m.indices.push(base + 2);
    m.indices.push(base + 1);
    m.indices.push(base);
    m.indices.push(base + 3);
    m.indices.push(base + 2);
    proof {
        let q = leaf_quad_model(p@, dirv@, h as int, g0.positions.len() as int);
        assert(final(m)@.positions =~= g0.positions + q.positions);
        assert(final(m)@.normals =~= g0.normals + q.normals);
        assert(final(m)@.uvs =~= g0.uvs + q.uvs);
        assert(final(m)@.indices =~= g0.indices + q.indices);
    }
}

/// Walk one node: a leaf contributes its billboard, a branch contributes a
/// segment per child followed by the child's own subtree.
fn process_node(t: &TreeNode, s: u64, h: i64, tm: &mut TrunkMesh, lm: &mut LeafMesh)
    requires
        1 <= s <= 64,
        0 < h <= 10_000,
        node_bounded(node_view(*t)),
        old(tm)@.positions.len() + 2 * (s as int + 1) * edge_count(node_view(*t))
            <= 500_000_000_000_000_000,
        old(lm)@.positions.len() + 4 * leaf_count(node_view(*t)) <= 500_000_000_000_000_000,
    ensures
        final(tm)@ == gt_concat(
            old(tm)@,
            trunk_model(node_view(*t), s as int, old(tm)@.positions.len() as int),
        ),
        final(lm)@ == gl_concat(
            old(lm)@,
            leaf_model(node_view(*t), h as int, old(lm)@.positions.len() as int),
        ),
    decreases *t, 1int, 0int,
{
    proof {
        lemma_counts_nonneg(node_view(*t));
        lemma_trunk_model_shape(node_view(*t), s as int, old(tm)@.positions.len() as int);
        lemma_leaf_model_shape(node_view(*t), h as int, old(lm)@.positions.len() as int);
        assert(0 <= 2 * (s as int + 1) * edge_count(node_view(*t))) by (nonlinear_arith)
            requires
                0 <= edge_count(node_view(*t)),
                1 <= s as int,
        ;
        assert(0 <= 4 * leaf_count(node_view(*t)));
    }
    if t.is_leaf {
        add_leaf(t.position, t.direction, h, lm);
        proof {
            assert(final(tm)@.positions =~= old(tm)@.positions + gt_empty().positions);
            assert(final(tm)@.normals =~= old(tm)@.normals + gt_empty().normals);
            assert(final(tm)@.indices =~= old(tm)@.indices + gt_empty().indices);
        }
    } else {
        proof {
            assert(node_view(*t).children =~= node_view(*t).children.skip(0));
        }
        process_kids(t, 0, s, h, tm, lm);
    }
}

/// Walk the children of a node from position `from` on.
fn process_kids(t: &TreeNode, from: usize, s: u64, h: i64, tm: &mut TrunkMesh, lm: &mut LeafMesh)
    requires
        1 <= s <= 64,
        0 < h <= 10_000,
        from <= t.children.len(),
        node_bounded(node_view(*t)),
        old(tm)@.positions.len() + 2 * (s as int + 1) * kids_edge_count(
            node_view(*t).children.skip(from as int),
        ) <= 500_000_000_000_000_000,
        old(lm)@.positions.len() + 4 * kids_leaf_count(node_view(*t).children.skip(from as int))
            <= 500_000_000_000_000_000,
    ensures
        final(tm)@ == gt_concat(
            old(tm)@,
            trunk_kids_model(
                node_view(*t),
                node_view(*t).children.skip(from as int),
                s as int,
                old(tm)@.positions.len() as int,
            ),
        ),
        final(lm)@ == gl_concat(
            old(lm)@,
            leaf_kids_model(
                node_view(*t).children.skip(from as int),
                h as int,
                old(lm)@.positions.len() as int,
            ),
        ),
    decreases *t, 0int, t.children.len() - from,
{
    let ghost n = node_view(*t);
    let ghost kids = n.children.skip(from as int);
    if from < t.children.len() {
        let child = &t.children[from];
        proof {
            lemma_views_of_index(t.children@);
            assert(n.children == views_of(t.children@));
            assert(n.children[from as int] == node_view(*child));
            assert(kids[0] == node_view(*child));
            assert(kids.drop_first() =~= n.children.skip(from as int + 1));
            lemma_counts_nonneg(node_view(*child));
            lemma_kids_counts_nonneg(kids.drop_first());
            assert(node_bounded(node_view(*child)));
            // the parts of the size budget
            assert(kids_edge_count(kids) == 1 + edge_count(kids[0]) + kids_edge_count(
                kids.drop_first(),
            ));
            assert(kids_leaf_count(kids) == leaf_count(kids[0]) + kids_leaf_count(
                kids.drop_first(),
            ));
            assert(2 * (s as int + 1) * kids_edge_count(kids) == 2 * (s as int + 1) + 2 * (s
                as int + 1) * edge_count(kids[0]) + 2 * (s as int + 1) * kids_edge_count(
                kids.drop_first(),
            )) by (nonlinear_arith)
                requires
                    kids_edge_count(kids) == 1 + edge_count(kids[0]) + kids_edge_count(
                        kids.drop_first(),
                    ),
            ;
            assert(0 <= 2 * (s as int + 1) * edge_count(kids[0])) by (nonlinear_arith)
                requires
                    0 <= edge_count(kids[0]),
                    1 <= s as int,
            ;
            assert(0 <= 2 * (s as int + 1) * kids_edge_count(kids.drop_first()))
                by (nonlinear_arith)
                requires
                    0 <= kids_edge_count(kids.drop_first()),
                    1 <= s as int,
            ;
        }
        let ghost t0 = tm@;
        let ghost l0 = lm@;
        add_branch(t.position, t.radius, child.position, child.radius, s, tm);
        let ghost t1 = tm@;
        proof {
            assert(t1.positions.len() == t0.positions.len() + 2 * (s as int + 1));
        }
        process_node(child, s, h, tm, lm);
        let ghost t2 = tm@;
        let ghost l2 = lm@;
        proof {
            lemma_trunk_model_shape(node_view(*child), s as int, t1.positions.len() as int);
            lemma_leaf_model_shape(node_view(*child), h as int, l0.positions.len() as int);
        }
        process_kids(t, from + 1, s, h, tm, lm);
        proof {
            let segm = seg_model(
                n.position,
                n.radius,
                kids[0].position,
                kids[0].radius,
                s as int,
                t0.positions.len() as int,
            );
            let sub = trunk_model(kids[0], s as int, t1.positions.len() as int);
            let rest = trunk_kids_model(
                n,
                kids.drop_first(),
                s as int,
                t2.positions.len() as int,
            );
            assert(n.position == t.position@ && n.radius == t.radius as int);
            assert(t1 == gt_concat(t0, segm));
            assert(t2 == gt_concat(t1, sub));
            assert(final(tm)@ == gt_concat(t2, rest));
            assert(trunk_kids_model(n, kids, s as int, t0.positions.len() as int) == gt_concat(
                segm,
                gt_concat(sub, rest),
            ));
            assert(final(tm)@.positions =~= t0.positions + (segm.positions + (sub.positions
                + rest.positions)));
            assert(final(tm)@.normals =~= t0.normals + (segm.normals + (sub.normals
                + rest.normals)));
            assert(final(tm)@.indices =~= t0.indices + (segm.indices + (sub.indices
                + rest.indices)));
            let lfirst = leaf_model(kids[0], h as int, l0.positions.len() as int);
            let lrest = leaf_kids_model(kids.drop_first(), h as int, l2.positions.len() as int);
            assert(l2 == gl_concat(l0, lfirst));
            assert(final(lm)@ == gl_concat(l2, lrest));
            assert(leaf_kids_model(kids, h as int, l0.positions.len() as int) == gl_concat(
                lfirst,
                lrest,
            ));
            assert(final(lm)@.positions =~= l0.positions + (lfirst.positions + lrest.positions));
            assert(final(lm)@.normals =~= l0.normals + (lfirst.normals + lrest.normals));
            assert(final(lm)@.uvs =~= l0.uvs + (lfirst.uvs + lrest.uvs));
            assert(final(lm)@.indices =~= l0.indices + (lfirst.indices + lrest.indices));
        }
    } else {
        proof {
            lemma_views_of_index(t.children@);
            assert(kids.len() == 0);
            assert(final(tm)@.positions =~= old(tm)@.positions + gt_empty().positions);
            assert(final(tm)@.normals =~= old(tm)@.normals + gt_empty().normals);
            assert(final(tm)@.indices =~= old(tm)@.indices + gt_empty().indices);
            assert(final(lm)@.positions =~= old(lm)@.positions + gl_empty().positions);
            assert(final(lm)@.normals =~= old(lm)@.normals + gl_empty().normals);
            assert(final(lm)@.uvs =~= old(lm)@.uvs + gl_empty().uvs);
            assert(final(lm)@.indices =~= old(lm)@.indices + gl_empty().indices);
        }
    }
}

/// Synthesize the trunk mesh and the leaf mesh of a finished branch graph.
/// The buffers are exactly the models of the graph; in particular the
/// buffer-sizing law and index validity hold of both meshes.  The depth and
/// bounds preconditions are machine limits that keep every vertex index
/// within its integer type; every graph `generate_tree` produces meets them.
pub fn create_tree_mesh(tree: &TreeNode, cfg: &MeshConfig) -> (out: (TrunkMesh, LeafMesh))
    requires
        mesh_config_valid(*cfg),
        depth_bounded(node_view(*tree), 32),
        node_bounded(node_view(*tree)),
    ensures
        out.0@ == trunk_model(node_view(*tree), cfg.segments as int, 0),
        out.1@ == leaf_model(node_view(*tree), cfg.leaf_half as int, 0),
        out.0@.positions.len() == 2 * (cfg.segments as int + 1) * edge_count(node_view(*tree)),
        out.0@.normals.len() == out.0@.positions.len(),
        out.0@.indices.len() == 6 * cfg.segments as int * edge_count(node_view(*tree)),
        forall|j: int|
            0 <= j < out.0@.indices.len() ==> 0 <= #[trigger] out.0@.indices[j]
                < out.0@.positions.len(),
        out.1@.positions.len() == 4 * leaf_count(node_view(*tree)),
        out.1@.normals.len() == out.1@.positions.len(),
        out.1@.uvs.len() == out.1@.positions.len(),
        out.1@.indices.len() == 6 * leaf_count(node_view(*tree)),
        forall|j: int|
            0 <= j < out.1@.indices.len() ==> 0 <= #[trigger] out.1@.indices[j]
                < out.1@.positions.len(),
{
    let mut tm = TrunkMesh { positions: Vec::new(), normals: Vec::new(), indices: Vec::new() };
    let mut lm = LeafMesh {
        positions: Vec::new(),
        normals: Vec::new(),
        uvs: Vec::new(),
        indices: Vec::new(),
    };
    proof {
        let n = node_view(*tree);
        lemma_counts_capped(n, 32);
        lemma_counts_nonneg(n);
        assert(edge_cap(32) <= 3_000_000_000_000_000 && leaf_cap(32) <= 2_000_000_000_000_000)
            by {
            reveal_with_fuel(edge_cap, 34);
            reveal_with_fuel(leaf_cap, 34);
        }
        assert(2 * (cfg.segments as int + 1) * edge_count(n) <= 390_000_000_000_000_000)
            by (nonlinear_arith)
            requires
                0 <= edge_count(n) <= 3_000_000_000_000_000,
                1 <= cfg.segments as int <= 64,
        ;
        assert(tm@.positions =~= Seq::<Pt>::empty());
        assert(tm@.normals =~= Seq::<Pt>::empty());
        assert(tm@.indices =~= Seq::<int>::empty());
        assert(lm@.positions =~= Seq::<Pt>::empty());
        assert(lm@.normals =~= Seq::<Pt>::empty());
        assert(lm@.uvs =~= Seq::<(int, int)>::empty());
        assert(lm@.indices =~= Seq::<int>::empty());
    }
    process_node(tree, cfg.segments, cfg.leaf_half, &mut tm, &mut lm);
    proof {
        let n = node_view(*tree);
        let mt = trunk_model(n, cfg.segments as int, 0);
        let ml = leaf_model(n, cfg.leaf_half as int, 0);
        assert(tm@.positions =~= mt.positions);
        assert(tm@.normals =~= mt.normals);
        assert(tm@.indices =~= mt.indices);
        assert(lm@.positions =~= ml.positions);
        assert(lm@.normals =~= ml.normals);
        assert(lm@.uvs =~= ml.uvs);
        assert(lm@.indices =~= ml.indices);
        lemma_trunk_model_shape(n, cfg.segments as int, 0);
        lemma_leaf_model_shape(n, cfg.leaf_half as int, 0);
    }
    (tm, lm)
}

/// Generate a branch graph and synthesize both meshes in one call.  An
/// invalid tree configuration is rejected with the first violated rule; a
/// valid one yields the graph together with its exact trunk and leaf models.
pub fn generate_tree_mesh<R: RandomSource, N: NoiseField>(
    rng: &mut R,
    noise: &N,
    cfg: &TreeConfig,
    mesh_cfg: &MeshConfig,
) -> (res: Result<(TreeNode, TrunkMesh, LeafMesh), ConfigError>)
    requires
        mesh_config_valid(*mesh_cfg),
    ensures
        res is Err <==> config_check(*cfg) is Some,
        res matches Err(e) ==> config_check(*cfg) == Some(e),
        res matches Ok(out) ==> {
            &&& tapered(node_view(out.0))
            &&& leaves_ok(node_view(out.0), cfg.min_radius as int, cfg.max_depth as int)
            &&& depth_bounded(node_view(out.0), cfg.max_depth as int)
            &&& out.1@ == trunk_model(node_view(out.0), mesh_cfg.segments as int, 0)
            &&& out.2@ == leaf_model(node_view(out.0), mesh_cfg.leaf_half as int, 0)
            &&& out.1@.positions.len() == 2 * (mesh_cfg.segments as int + 1) * edge_count(
                node_view(out.0),
            )
            &&& out.1@.indices.len() == 6 * mesh_cfg.segments as int * edge_count(
                node_view(out.0),
            )
            &&& out.2@.positions.len() == 4 * leaf_count(node_view(out.0))
            &&& out.2@.indices.len() == 6 * leaf_count(node_view(out.0))
            &&& forall|j: int|
                0 <= j < out.1@.indices.len() ==> 0 <= #[trigger] out.1@.indices[j]
                    < out.1@.positions.len()
            &&& forall|j: int|
                0 <= j < out.2@.indices.len() ==> 0 <= #[trigger] out.2@.indices[j]
                    < out.2@.positions.len()
        },
        (old(rng).scripted() && replays_script(old(rng))) ==> final(rng).scripted()
            && final(rng).script() == old(rng).script() && replays_script(final(rng)),
{
    match generate_tree(rng, noise, cfg) {
        Err(e) => Err(e),
        Ok(tree) => {
            proof {
                crate::branch::lemma_depth_bounded_mono(
                    node_view(tree),
                    cfg.max_depth as int,
                    32,
                );
            }
            let (trunk, leaf) = create_tree_mesh(&tree, mesh_cfg);
            Ok((tree, trunk, leaf))
        },
    }
}

/// Edge and leaf counts are never negative.
pub proof fn lemma_counts_nonneg(n: GNode)
    ensures
        0 <= edge_count(n),
        0 <= leaf_count(n),
    decreases n, 1int,
{
    if !n.is_leaf {
        lemma_kids_counts_nonneg(n.children);
    }
}

pub proof fn lemma_kids_counts_nonneg(kids: Seq<GNode>)
    ensures
        0 <= kids_edge_count(kids),
        0 <= kids_leaf_count(kids),
    decreases kids, 0int,
{
    if kids.len() != 0 {
        lemma_counts_nonneg(kids[0]);
        lemma_kids_counts_nonneg(kids.drop_first());
    }
}

} // verus!
