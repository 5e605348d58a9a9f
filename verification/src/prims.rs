//! Primitives and the bounding-volume hierarchy.
//!
//! Primitives live in one owned collection; the tree's leaves hold indices
//! into it, never pointers. The query contract ties the hierarchy to plain
//! linear search: pruning by a node's box can never drop a real hit, because
//! every contained primitive's box fits inside it and a ray that misses the
//! outer box misses the inner one.

use vstd::prelude::*;

use crate::fixed::{
    fx_add, fx_add_s, fx_div, fx_div_s, fx_from_u128, fx_from_usize, fx_mul, fx_mul_s, fx_sub_s,
    sat64, tz_div, FX_ONE,
};
use crate::material::Material;
use crate::geom::Ray3f;
use crate::shape::{
    aabb_area_s, aabb_contains_box, aabb_empty_s, aabb_hit_s, aabb_union_p_s, aabb_union_s,
    lemma_aabb_hit_monotone, lemma_contains_trans, lemma_union_assoc, lemma_union_comm,
    lemma_union_contains, lemma_union_empty, shape_bbox_s, shape_hit_s, Shape, AABB,
};
use crate::vec3::{v3_dot, v3_sub, Vec3};

verus! {

/// A transient hit record: where the ray struck, the surface normal there,
/// the material to scatter with, the parametric distance along the ray, and
/// the index of the primitive that was hit.
#[derive(Clone, Copy, PartialEq, Eq, Structural, Debug)]
pub struct SurfaceInteraction {
    pub prim: usize,
    pub point: Vec3,
    pub normal: Vec3,
    pub material: Material,
    pub t: i64,
}

/// One shape bound to one material, with its bounding box precomputed at
/// construction.
#[derive(Clone, Copy, PartialEq, Eq, Structural, Debug)]
pub struct ShapePrimitive {
    pub shape: Shape,
    pub material: Material,
    pub aabb: Option<AABB>,
}

/// What intersecting one primitive returns: nothing when the precomputed box
/// is missed (the shape routine is never consulted then), otherwise the
/// shape's hit packaged with the material and the distance along the ray.
pub open spec fn prim_hit_s(p: ShapePrimitive, pi: usize, r: Ray3f) -> Option<SurfaceInteraction> {
    if p.aabb is Some && !aabb_hit_s(p.aabb->0, r) {
        None
    } else {
        match shape_hit_s(p.shape, r) {
            None => None,
            Some(pn) => Some(
                SurfaceInteraction {
                    prim: pi,
                    point: pn.0,
                    normal: pn.1,
                    material: p.material,
                    t: v3_dot(v3_sub(pn.0, r.origin), r.direction) as i64,
                },
            ),
        }
    }
}

impl ShapePrimitive {
    pub fn new(shape: Shape, material: Material) -> (p: ShapePrimitive)
        ensures
            p.shape == shape,
            p.material == material,
            p.aabb == shape_bbox_s(shape),
    {
        let aabb = shape.bounding_box();
        ShapePrimitive { shape, material, aabb }
    }

    /// `pi` is this primitive's index in the owning collection; it only
    /// tags the returned record.
    pub fn intersect(&self, pi: usize, r: Ray3f) -> (hit: Option<SurfaceInteraction>)
        ensures
            hit == prim_hit_s(*self, pi, r),
    {
        if let Some(bx) = self.aabb {
            if !bx.intersect(r) {
                return None;
            }
        }
        match self.shape.intersect(r) {
            None => None,
            Some((point, normal)) => Some(
                SurfaceInteraction {
                    prim: pi,
                    point,
                    normal,
                    material: self.material,
                    t: point.sub(&r.origin).dot(&r.direction),
                },
            ),
        }
    }

    pub fn bounding_box(&self) -> (r: Option<AABB>)
        ensures
            r == self.aabb,
    {
        self.aabb
    }
}

/// A ray that misses a primitive's bounding box never reaches the shape's
/// intersection routine: the primitive answers `None` from the box test
/// alone, whatever the shape would have said.
pub proof fn lemma_box_miss_skips_shape(p: ShapePrimitive, pi: usize, r: Ray3f)
    requires
        p.aabb is Some,
        !aabb_hit_s(p.aabb->0, r),
    ensures
        prim_hit_s(p, pi, r) is None,
{
}

/// The hierarchy: a leaf holds a small bucket of primitive indices, a node
/// two subtrees; both carry the box that bounds everything below them.
pub enum BVH {
    Leaf { aabb: AABB, prims: Vec<usize> },
    Node { aabb: AABB, left: Box<BVH>, right: Box<BVH> },
}

impl BVH {
    pub open spec fn aabb_of(self) -> AABB {
        match self {
            BVH::Leaf { aabb, .. } => aabb,
            BVH::Node { aabb, .. } => aabb,
        }
    }

    /// The index appears somewhere in this subtree.
    pub open spec fn has_idx(self, i: usize) -> bool
        decreases self,
    {
        match self {
            BVH::Leaf { prims, .. } => prims@.contains(i),
            BVH::Node { left, right, .. } => left.has_idx(i) || right.has_idx(i),
        }
    }

    /// How many leaf slots of the subtree reference primitive `i`.
    pub open spec fn idx_count(self, i: usize) -> int
        decreases self,
    {
        match self {
            BVH::Leaf { prims, .. } => count_usize_s(prims@, i),
            BVH::Node { left, right, .. } => left.idx_count(i) + right.idx_count(i),
        }
    }

    /// Every stored box is exactly the union of the boxes of the primitives
    /// beneath it: a leaf's box folds its primitives' boxes, and an inner
    /// box is the union of its children's.
    pub open spec fn boxes_tight(self, ps: Seq<ShapePrimitive>) -> bool
        decreases self,
    {
        match self {
            BVH::Leaf { aabb, prims } => aabb == fold_idx_boxes_s(prims@, ps),
            BVH::Node { aabb, left, right } => {
                &&& left.boxes_tight(ps)
                &&& right.boxes_tight(ps)
                &&& aabb == aabb_union_s(left.aabb_of(), right.aabb_of())
            },
        }
    }

    /// Well-formed over the primitive collection: all indices are in range,
    /// every referenced primitive has a box, and each level's box contains
    /// everything below it.
    pub open spec fn wf(self, ps: Seq<ShapePrimitive>) -> bool
        decreases self,
    {
        match self {
            BVH::Leaf { aabb, prims } => forall|k: int|
                0 <= k < prims@.len() ==> {
                    let i = #[trigger] prims@[k];
                    &&& (i as int) < ps.len()
                    &&& ps[i as int].aabb is Some
                    &&& aabb_contains_box(aabb, ps[i as int].aabb->0)
                },
            BVH::Node { aabb, left, right } => {
                &&& left.wf(ps)
                &&& right.wf(ps)
                &&& aabb_contains_box(aabb, left.aabb_of())
                &&& aabb_contains_box(aabb, right.aabb_of())
            },
        }
    }
}

/// Occurrences of `i` in a leaf's index list.
pub open spec fn count_usize_s(s: Seq<usize>, i: usize) -> int
    decreases s.len(),
{
    if s.len() == 0 {
        0
    } else {
        count_usize_s(s.drop_last(), i) + if s.last() == i {
            1int
        } else {
            0int
        }
    }
}

/// The union of the boxes of the primitives an index list references.
pub open spec fn fold_idx_boxes_s(idxs: Seq<usize>, ps: Seq<ShapePrimitive>) -> AABB
    decreases idxs.len(),
{
    if idxs.len() == 0 {
        aabb_empty_s()
    } else {
        aabb_union_s(fold_idx_boxes_s(idxs.drop_last(), ps), ps[idxs.last() as int].aabb->0)
    }
}

/// The union of all primitives' boxes, folded in order.
pub open spec fn aabb_fold_prims_s(ps: Seq<ShapePrimitive>) -> AABB
    decreases ps.len(),
{
    if ps.len() == 0 {
        aabb_empty_s()
    } else {
        aabb_union_s(aabb_fold_prims_s(ps.drop_last()), ps.last().aabb->0)
    }
}

/// A ray that misses a subtree's box hits nothing in the subtree: box
/// containment is hereditary and each primitive checks its own box first.
proof fn lemma_pruned(t: BVH, ps: Seq<ShapePrimitive>, r: Ray3f)
    requires
        t.wf(ps),
        !aabb_hit_s(t.aabb_of(), r),
    ensures
        forall|i: usize| #[trigger] t.has_idx(i) ==> prim_hit_s(ps[i as int], i, r) is None,
    decreases t,
{
    match t {
        BVH::Leaf { aabb, prims } => {
            assert forall|i: usize| #[trigger] t.has_idx(i) implies prim_hit_s(
                ps[i as int],
                i,
                r,
            ) is None by {
                assert(prims@.contains(i));
                let k = choose|k: int| 0 <= k < prims@.len() && prims@[k] == i;
                assert(prims@[k] == i);
                assert(aabb_contains_box(aabb, ps[i as int].aabb->0));
                if aabb_hit_s(ps[i as int].aabb->0, r) {
                    lemma_aabb_hit_monotone(aabb, ps[i as int].aabb->0, r);
                }
            }
        },
        BVH::Node { aabb, left, right } => {
            if aabb_hit_s(left.aabb_of(), r) {
                lemma_aabb_hit_monotone(aabb, left.aabb_of(), r);
            }
            if aabb_hit_s(right.aabb_of(), r) {
                lemma_aabb_hit_monotone(aabb, right.aabb_of(), r);
            }
            lemma_pruned(*left, ps, r);
            lemma_pruned(*right, ps, r);
            assert forall|i: usize| #[trigger] t.has_idx(i) implies prim_hit_s(
                ps[i as int],
                i,
                r,
            ) is None by {
                assert(left.has_idx(i) || right.has_idx(i));
            }
        },
    }
}

/// `res` is a correct query answer for the subtree `t`: `None` exactly when
/// nothing in the subtree is hit, otherwise a real hit of minimal distance.
pub open spec fn is_best_hit(
    ps: Seq<ShapePrimitive>,
    t: BVH,
    r: Ray3f,
    res: Option<SurfaceInteraction>,
) -> bool {
    match res {
        None => forall|i: usize| #[trigger] t.has_idx(i) ==> prim_hit_s(ps[i as int], i, r) is None,
        Some(h) => {
            &&& exists|i: usize| #[trigger] t.has_idx(i) && prim_hit_s(ps[i as int], i, r) == Some(
                h,
            )
            &&& forall|i: usize| #[trigger] t.has_idx(i) ==> (prim_hit_s(ps[i as int], i, r)
                is Some ==> h.t <= prim_hit_s(ps[i as int], i, r)->0.t)
        },
    }
}

impl BVH {
    /// Walk the tree: prune by box, test leaf primitives linearly, keep the
    /// closest hit of the two subtrees.
    #[verifier::rlimit(100)]
    pub fn intersect(&self, ps: &Vec<ShapePrimitive>, r: Ray3f) -> (res: Option<
        SurfaceInteraction,
    >)
        requires
            self.wf(ps@),
        ensures
            is_best_hit(ps@, *self, r, res),
        decreases *self,
    {
        match self {
            BVH::Leaf { aabb, prims } => {
                if !aabb.intersect(r) {
                    proof {
                        lemma_pruned(*self, ps@, r);
                    }
                    return None;
                }
                let mut best: Option<SurfaceInteraction> = None;
                let mut k: usize = 0;
                while k < prims.len()
                    invariant
                        k <= prims@.len(),
                        self == (BVH::Leaf { aabb: *aabb, prims: *prims }),
                        self.wf(ps@),
                        match best {
                            None => forall|j: int|
                                0 <= j < k as int ==> prim_hit_s(
                                    ps@[prims@[j] as int],
                                    #[trigger] prims@[j],
                                    r,
                                ) is None,
                            Some(h) => {
                                &&& exists|j: int|
                                    0 <= j < k as int && prim_hit_s(
                                        ps@[prims@[j] as int],
                                        #[trigger] prims@[j],
                                        r,
                                    ) == Some(h)
                                &&& forall|j: int|
                                    0 <= j < k as int ==> (prim_hit_s(
                                        ps@[prims@[j] as int],
                                        #[trigger] prims@[j],
                                        r,
                                    ) is Some ==> h.t <= prim_hit_s(
                                        ps@[prims@[j] as int],
                                        prims@[j],
                                        r,
                                    )->0.t)
                            },
                        },
                    decreases prims@.len() - k,
                {
                    let pi = prims[k];
                    let hit = ps[pi].intersect(pi, r);
                    best = match (best, hit) {
                        (None, h) => h,
                        (h, None) => h,
                        (Some(b), Some(h)) => if b.t < h.t {
                            Some(b)
                        } else {
                            Some(h)
                        },
                    };
                    k = k + 1;
                }
                proof {
                    lemma_leaf_best(ps@, *self, r, best);
                }
                best
            },
            BVH::Node { aabb, left, right } => {
                if !aabb.intersect(r) {
                    proof {
                        lemma_pruned(*self, ps@, r);
                    }
                    return None;
                }
                let lres = left.intersect(ps, r);
                let rres = right.intersect(ps, r);
                let res = match (lres, rres) {
                    (None, h) => h,
                    (h, None) => h,
                    (Some(hl), Some(hr)) => if hl.t < hr.t {
                        Some(hl)
                    } else {
                        Some(hr)
                    },
                };
                proof {
                    lemma_node_best(ps@, *self, r, lres, rres, res);
                }
                res
            },
        }
    }

    pub fn bounding_box(&self) -> (r: Option<AABB>)
        ensures
            r == Some(self.aabb_of()),
    {
        Some(
            *match self {
                BVH::Leaf { aabb, prims: _ } => aabb,
                BVH::Node { aabb, left: _, right: _ } => aabb,
            },
        )
    }
}

/// Lift the leaf loop's per-position facts to subtree membership.
#[verifier::rlimit(100)]
proof fn lemma_leaf_best(
    ps: Seq<ShapePrimitive>,
    t: BVH,
    r: Ray3f,
    best: Option<SurfaceInteraction>,
)
    requires
        t is Leaf,
        match best {
            None => forall|j: int|
                0 <= j < t->Leaf_prims@.len() ==> prim_hit_s(
                    ps[t->Leaf_prims@[j] as int],
                    #[trigger] t->Leaf_prims@[j],
                    r,
                ) is None,
            Some(h) => {
                &&& exists|j: int|
                    0 <= j < t->Leaf_prims@.len() && prim_hit_s(
                        ps[t->Leaf_prims@[j] as int],
                        #[trigger] t->Leaf_prims@[j],
                        r,
                    ) == Some(h)
                &&& forall|j: int|
                    0 <= j < t->Leaf_prims@.len() ==> (prim_hit_s(
                        ps[t->Leaf_prims@[j] as int],
                        #[trigger] t->Leaf_prims@[j],
                        r,
                    ) is Some ==> h.t <= prim_hit_s(ps[t->Leaf_prims@[j] as int], t->Leaf_prims@[j], r)->0.t)
            },
        },
    ensures
        is_best_hit(ps, t, r, best),
{
    let prims = t->Leaf_prims;
    match best {
        None => {
            assert forall|i: usize| #[trigger] t.has_idx(i) implies prim_hit_s(
                ps[i as int],
                i,
                r,
            ) is None by {
                let j = choose|j: int| 0 <= j < prims@.len() && prims@[j] == i;
                assert(prim_hit_s(ps[prims@[j] as int], prims@[j], r) is None);
            }
        },
        Some(h) => {
            let j = choose|j: int|
                0 <= j < prims@.len() && prim_hit_s(
                    ps[prims@[j] as int],
                    #[trigger] prims@[j],
                    r,
                ) == Some(h);
            assert(t.has_idx(prims@[j]) && prim_hit_s(ps[prims@[j] as int], prims@[j], r) == Some(
                h,
            ));
            assert forall|i: usize|
                #[trigger] t.has_idx(i) && prim_hit_s(ps[i as int], i, r) is Some implies h.t
                <= prim_hit_s(ps[i as int], i, r)->0.t by {
                let jj = choose|jj: int| 0 <= jj < prims@.len() && prims@[jj] == i;
                assert(prim_hit_s(ps[prims@[jj] as int], prims@[jj], r) is Some ==> h.t
                    <= prim_hit_s(ps[prims@[jj] as int], prims@[jj], r)->0.t);
            }
        },
    }
}

/// The closest of two correct subtree answers is a correct answer for the
/// node above them.
#[verifier::rlimit(100)]
proof fn lemma_node_best(
    ps: Seq<ShapePrimitive>,
    t: BVH,
    r: Ray3f,
    lres: Option<SurfaceInteraction>,
    rres: Option<SurfaceInteraction>,
    res: Option<SurfaceInteraction>,
)
    requires
        t is Node,
        is_best_hit(ps, *t->Node_left, r, lres),
        is_best_hit(ps, *t->Node_right, r, rres),
        res == match (lres, rres) {
            (None, h) => h,
            (h, None) => h,
            (Some(hl), Some(hr)) => if hl.t < hr.t {
                Some(hl)
            } else {
                Some(hr)
            },
        },
    ensures
        is_best_hit(ps, t, r, res),
{
    let left = *t->Node_left;
    let right = *t->Node_right;
    match res {
        None => {
            assert(lres is None && rres is None);
            assert forall|i: usize| #[trigger] t.has_idx(i) implies prim_hit_s(
                ps[i as int],
                i,
                r,
            ) is None by {
                assert(left.has_idx(i) || right.has_idx(i));
            }
        },
        Some(h) => {
            if lres is Some && (rres is None || lres->0.t < rres->0.t) {
                let i = choose|i: usize|
                    #[trigger] left.has_idx(i) && prim_hit_s(ps[i as int], i, r) == Some(h);
                assert(t.has_idx(i) && prim_hit_s(ps[i as int], i, r) == Some(h));
            } else {
                let i = choose|i: usize|
                    #[trigger] right.has_idx(i) && prim_hit_s(ps[i as int], i, r) == Some(h);
                assert(t.has_idx(i) && prim_hit_s(ps[i as int], i, r) == Some(h));
            }
            assert forall|i: usize|
                #[trigger] t.has_idx(i) && prim_hit_s(ps[i as int], i, r) is Some implies h.t
                <= prim_hit_s(ps[i as int], i, r)->0.t by {
                if left.has_idx(i) {
                    assert(prim_hit_s(ps[i as int], i, r) is Some ==> lres is Some
                        && lres->0.t <= prim_hit_s(ps[i as int], i, r)->0.t);
                } else {
                    assert(right.has_idx(i));
                    assert(prim_hit_s(ps[i as int], i, r) is Some ==> rres is Some
                        && rres->0.t <= prim_hit_s(ps[i as int], i, r)->0.t);
                }
            }
        },
    }
}

pub const OBJECT_SPLIT_BUCKETS: usize = 16;

pub const MAX_PRIMITIVES_PER_NODE: usize = 4;

/// Raw fixed-point value of the bucket count.
pub const FX_BUCKETS: i64 = 68719476736;

/// Per-primitive build record: index into the collection, its box, and the
/// box center the split heuristic buckets by.
#[derive(Clone, Copy)]
struct PrimitiveInfo {
    idx: usize,
    aabb: AABB,
    center: Vec3,
}

#[derive(Clone, Copy)]
struct BucketInfo {
    count: usize,
    aabb: AABB,
}

struct SplitResult {
    cost: i64,
    left: Vec<PrimitiveInfo>,
    left_aabb: AABB,
    right: Vec<PrimitiveInfo>,
    right_aabb: AABB,
    bounds: AABB,
}

/// Build records agree with the primitive collection they index into.
spec fn info_wf(infos: Seq<PrimitiveInfo>, ps: Seq<ShapePrimitive>) -> bool {
    forall|k: int|
        0 <= k < infos.len() ==> {
            let pi = #[trigger] infos[k];
            &&& (pi.idx as int) < ps.len()
            &&& ps[pi.idx as int].aabb is Some
            &&& pi.aabb == ps[pi.idx as int].aabb->0
        }
}

/// The index `i` appears among the build records.
spec fn infos_has(infos: Seq<PrimitiveInfo>, i: usize) -> bool {
    exists|k: int| 0 <= k < infos.len() && (#[trigger] infos[k]).idx == i
}

/// The union of all record boxes, folded left to right.
spec fn fold_infos_s(s: Seq<PrimitiveInfo>) -> AABB
    decreases s.len(),
{
    if s.len() == 0 {
        aabb_empty_s()
    } else {
        aabb_union_s(fold_infos_s(s.drop_last()), s.last().aabb)
    }
}

proof fn lemma_fold_infos_contains(s: Seq<PrimitiveInfo>)
    ensures
        forall|k: int|
            0 <= k < s.len() ==> aabb_contains_box(fold_infos_s(s), (#[trigger] s[k]).aabb),
    decreases s.len(),
{
    if s.len() > 0 {
        lemma_fold_infos_contains(s.drop_last());
        lemma_union_contains(fold_infos_s(s.drop_last()), s.last().aabb);
        assert forall|k: int|
            0 <= k < s.len() implies aabb_contains_box(fold_infos_s(s), (#[trigger] s[k]).aabb) by {
            if k < s.len() - 1 {
                assert(s.drop_last()[k] == s[k]);
                lemma_contains_trans(fold_infos_s(s), fold_infos_s(s.drop_last()), s[k].aabb);
            } else {
                assert(s[k] == s.last());
            }
        }
    }
}

/// The bounds of all record centers, folded left to right.
spec fn fold_centers_s(s: Seq<PrimitiveInfo>) -> AABB
    decreases s.len(),
{
    if s.len() == 0 {
        aabb_empty_s()
    } else {
        aabb_union_p_s(fold_centers_s(s.drop_last()), s.last().center)
    }
}

/// Folded center bounds are tight on every axis: each center's coordinate
/// lies between the bounds, and both bounds are attained by some center.
proof fn lemma_centers_attained(s: Seq<PrimitiveInfo>, dim: int)
    requires
        s.len() >= 1,
        0 <= dim < 3,
    ensures
        forall|k: int|
            0 <= k < s.len() ==> comp_s(fold_centers_s(s).min, dim) <= comp_s(
                (#[trigger] s[k]).center,
                dim,
            ) <= comp_s(fold_centers_s(s).max, dim),
        exists|k: int|
            0 <= k < s.len() && comp_s((#[trigger] s[k]).center, dim) == comp_s(
                fold_centers_s(s).min,
                dim,
            ),
        exists|k: int|
            0 <= k < s.len() && comp_s((#[trigger] s[k]).center, dim) == comp_s(
                fold_centers_s(s).max,
                dim,
            ),
    decreases s.len(),
{
    let d = s.drop_last();
    let c = s.last().center;
    if s.len() == 1 {
        assert(fold_centers_s(d) == aabb_empty_s());
        assert(s[0] == s.last());
    } else {
        lemma_centers_attained(d, dim);
        assert forall|k: int|
            0 <= k < s.len() implies comp_s(fold_centers_s(s).min, dim) <= comp_s(
            (#[trigger] s[k]).center,
            dim,
        ) <= comp_s(fold_centers_s(s).max, dim) by {
            if k < d.len() {
                assert(d[k] == s[k]);
            } else {
                assert(s[k] == s.last());
            }
        }
        if comp_s(fold_centers_s(d).min, dim) <= comp_s(c, dim) {
            let k = choose|k: int|
                0 <= k < d.len() && comp_s((#[trigger] d[k]).center, dim) == comp_s(
                    fold_centers_s(d).min,
                    dim,
                );
            assert(s[k] == d[k]);
            assert(comp_s((s[k]).center, dim) == comp_s(fold_centers_s(s).min, dim));
        } else {
            assert(s[s.len() - 1] == s.last());
            assert(comp_s((s[s.len() - 1]).center, dim) == comp_s(fold_centers_s(s).min, dim));
        }
        if comp_s(fold_centers_s(d).max, dim) >= comp_s(c, dim) {
            let k = choose|k: int|
                0 <= k < d.len() && comp_s((#[trigger] d[k]).center, dim) == comp_s(
                    fold_centers_s(d).max,
                    dim,
                );
            assert(s[k] == d[k]);
            assert(comp_s((s[k]).center, dim) == comp_s(fold_centers_s(s).max, dim));
        } else {
            assert(s[s.len() - 1] == s.last());
            assert(comp_s((s[s.len() - 1]).center, dim) == comp_s(fold_centers_s(s).max, dim));
        }
    }
}

pub open spec fn comp_s(v: Vec3, dim: int) -> i64 {
    if dim == 0 {
        v.x
    } else if dim == 1 {
        v.y
    } else {
        v.z
    }
}

fn comp(v: &Vec3, dim: usize) -> (r: i64)
    requires
        dim < 3,
    ensures
        r == comp_s(*v, dim as int),
{
    if dim == 0 {
        v.x
    } else if dim == 1 {
        v.y
    } else {
        v.z
    }
}

/// Which of the fixed buckets a centroid falls into along `dim`, clamped to
/// the valid range as the float-to-index cast would be.
pub open spec fn bucket_of_s(center_bounds: AABB, center: Vec3, dim: int) -> int {
    let off = comp_s(crate::shape::aabb_offset_s(center_bounds, center), dim);
    let scaled = fx_mul_s(off as int, FX_BUCKETS as int);
    if scaled < 0 {
        0
    } else {
        let q = tz_div(scaled, FX_ONE as int);
        if q >= OBJECT_SPLIT_BUCKETS as int {
            OBJECT_SPLIT_BUCKETS as int - 1
        } else {
            q
        }
    }
}

fn bucket_of(center_bounds: &AABB, center: &Vec3, dim: usize) -> (b: usize)
    requires
        dim < 3,
    ensures
        b < OBJECT_SPLIT_BUCKETS,
        b as int == bucket_of_s(*center_bounds, *center, dim as int),
{
    let off = center_bounds.offset_p(center);
    let scaled = fx_mul(comp(&off, dim), FX_BUCKETS);
    if scaled < 0 {
        0
    } else {
        let q = (scaled as u64) / 4294967296u64;
        if q >= 16 {
            15
        } else {
            q as usize
        }
    }
}

/// A centroid at the lower bound of a non-degenerate axis falls in the
/// first bucket: its offset along the axis is exactly zero.
proof fn lemma_bucket_at_min(cb: AABB, c: Vec3, dim: int)
    requires
        0 <= dim < 3,
        comp_s(c, dim) == comp_s(cb.min, dim),
        comp_s(cb.min, dim) < comp_s(cb.max, dim),
    ensures
        bucket_of_s(cb, c, dim) == 0,
{
    let p = comp_s(c, dim) as int;
    let mn = comp_s(cb.min, dim) as int;
    let mx = comp_s(cb.max, dim) as int;
    let b = fx_sub_s(mx, mn);
    assert(1 <= b);
    assert(fx_div_s(0, b) == 0) by {
        vstd::arithmetic::div_mod::lemma_div_basics(b);
        assert(0 * (FX_ONE as int) == 0) by (nonlinear_arith);
    }
    assert(comp_s(crate::shape::aabb_offset_s(cb, c), dim) == 0);
    assert(fx_mul_s(0, FX_BUCKETS as int) == 0) by {
        assert(0 * (FX_BUCKETS as int) == 0) by (nonlinear_arith);
    }
    assert(tz_div(0, FX_ONE as int) == 0);
}

/// A centroid at the upper bound of a non-degenerate axis falls in the
/// last bucket: its offset along the axis is exactly one.
proof fn lemma_bucket_at_max(cb: AABB, c: Vec3, dim: int)
    requires
        0 <= dim < 3,
        comp_s(c, dim) == comp_s(cb.max, dim),
        comp_s(cb.min, dim) < comp_s(cb.max, dim),
    ensures
        bucket_of_s(cb, c, dim) == OBJECT_SPLIT_BUCKETS as int - 1,
{
    let sc = FX_ONE as int;
    let mn = comp_s(cb.min, dim) as int;
    let mx = comp_s(cb.max, dim) as int;
    let b = fx_sub_s(mx, mn);
    assert(1 <= b <= i64::MAX as int);
    assert(fx_div_s(b, b) == sc) by {
        assert(b * sc == sc * b) by (nonlinear_arith);
        vstd::arithmetic::div_mod::lemma_div_multiples_vanish(sc, b);
        assert(b * sc >= 0) by (nonlinear_arith)
            requires
                b >= 1,
                sc > 0,
        ;
    }
    assert(comp_s(crate::shape::aabb_offset_s(cb, c), dim) as int == sc);
    assert(fx_mul_s(sc, FX_BUCKETS as int) == FX_BUCKETS as int) by {
        assert(sc * (FX_BUCKETS as int) == (FX_BUCKETS as int) * sc) by (nonlinear_arith);
        vstd::arithmetic::div_mod::lemma_div_multiples_vanish(FX_BUCKETS as int, sc);
        assert(sc * (FX_BUCKETS as int) >= 0) by (nonlinear_arith)
            requires
                sc == 4294967296,
                FX_BUCKETS == 68719476736i64,
        ;
    }
    assert(tz_div(FX_BUCKETS as int, sc) == 16) by {
        assert((FX_BUCKETS as int) == 16 * sc + 0) by (nonlinear_arith)
            requires
                FX_BUCKETS == 68719476736i64,
                sc == 4294967296,
        ;
        vstd::arithmetic::div_mod::lemma_fundamental_div_mod_converse_div(
            FX_BUCKETS as int,
            sc,
            16,
            0,
        );
    }
}

/// The records of one side of the bucket partition at boundary `mb`, in
/// input order: `left` keeps the buckets up to and including the boundary.
spec fn side_s(s: Seq<PrimitiveInfo>, cb: AABB, dim: int, mb: int, left: bool) -> Seq<
    PrimitiveInfo,
>
    decreases s.len(),
{
    if s.len() == 0 {
        Seq::empty()
    } else {
        let rest = side_s(s.drop_last(), cb, dim, mb, left);
        if (bucket_of_s(cb, s.last().center, dim) <= mb) == left {
            rest.push(s.last())
        } else {
            rest
        }
    }
}

/// A record whose bucket lands on a side makes that side nonempty.
proof fn lemma_side_nonempty(
    s: Seq<PrimitiveInfo>,
    cb: AABB,
    dim: int,
    mb: int,
    left: bool,
    k: int,
)
    requires
        0 <= k < s.len(),
        (bucket_of_s(cb, s[k].center, dim) <= mb) == left,
    ensures
        side_s(s, cb, dim, mb, left).len() >= 1,
    decreases s.len(),
{
    if k < s.len() - 1 {
        assert(s.drop_last()[k] == s[k]);
        lemma_side_nonempty(s.drop_last(), cb, dim, mb, left, k);
    } else {
        assert(s[k] == s.last());
    }
}

/// How many records of `s` fall in bucket `b` along `dim`.
spec fn bucket_count_s(s: Seq<PrimitiveInfo>, cb: AABB, dim: int, b: int) -> int
    decreases s.len(),
{
    if s.len() == 0 {
        0
    } else {
        bucket_count_s(s.drop_last(), cb, dim, b) + if bucket_of_s(cb, s.last().center, dim)
            == b {
            1int
        } else {
            0int
        }
    }
}

proof fn lemma_bucket_count_bound(s: Seq<PrimitiveInfo>, cb: AABB, dim: int, b: int)
    ensures
        0 <= bucket_count_s(s, cb, dim, b) <= s.len(),
    decreases s.len(),
{
    if s.len() > 0 {
        lemma_bucket_count_bound(s.drop_last(), cb, dim, b);
    }
}

/// The union of the boxes of the records of `s` in bucket `b`.
spec fn bucket_box_s(s: Seq<PrimitiveInfo>, cb: AABB, dim: int, b: int) -> AABB
    decreases s.len(),
{
    if s.len() == 0 {
        aabb_empty_s()
    } else {
        let rest = bucket_box_s(s.drop_last(), cb, dim, b);
        if bucket_of_s(cb, s.last().center, dim) == b {
            aabb_union_s(rest, s.last().aabb)
        } else {
            rest
        }
    }
}

/// Count of the records falling in the bucket range `[lo, hi)`.
spec fn count_range_s(s: Seq<PrimitiveInfo>, cb: AABB, dim: int, lo: int, hi: int) -> int
    decreases hi - lo,
{
    if lo >= hi {
        0
    } else {
        count_range_s(s, cb, dim, lo, hi - 1) + bucket_count_s(s, cb, dim, hi - 1)
    }
}

/// Union of the boxes of the records falling in the bucket range `[lo, hi)`.
spec fn box_range_s(s: Seq<PrimitiveInfo>, cb: AABB, dim: int, lo: int, hi: int) -> AABB
    decreases hi - lo,
{
    if lo >= hi {
        aabb_empty_s()
    } else {
        aabb_union_s(box_range_s(s, cb, dim, lo, hi - 1), bucket_box_s(s, cb, dim, hi - 1))
    }
}

/// The surface-area-heuristic price of splitting after bucket `i`: one
/// traversal step plus the per-side count-weighted areas over the total.
spec fn sah_cost_s(s: Seq<PrimitiveInfo>, cb: AABB, dim: int, i: int) -> int {
    let nb = OBJECT_SPLIT_BUCKETS as int;
    let cl = count_range_s(s, cb, dim, 0, i + 1);
    let cr = count_range_s(s, cb, dim, i + 1, nb);
    let al = aabb_area_s(box_range_s(s, cb, dim, 0, i + 1));
    let ar = aabb_area_s(box_range_s(s, cb, dim, i + 1, nb));
    fx_add_s(
        FX_ONE as int,
        fx_div_s(
            fx_add_s(
                fx_mul_s(sat64(cl * (FX_ONE as int)), al),
                fx_mul_s(sat64(cr * (FX_ONE as int)), ar),
            ),
            aabb_area_s(fold_infos_s(s)),
        ),
    )
}

/// A successful split is the bucket partition at a boundary whose cost is
/// minimal over all boundaries of the axis.
spec fn split_at_s(sr: SplitResult, input: Seq<PrimitiveInfo>, cb: AABB, dim: int, mb: int) -> bool {
    &&& 0 <= mb < OBJECT_SPLIT_BUCKETS as int - 1
    &&& sr.left@ == side_s(input, cb, dim, mb, true)
    &&& sr.right@ == side_s(input, cb, dim, mb, false)
    &&& sr.cost as int == sah_cost_s(input, cb, dim, mb)
    &&& forall|j: int|
        0 <= j < OBJECT_SPLIT_BUCKETS as int - 1 ==> sah_cost_s(input, cb, dim, j)
            >= sr.cost as int
}

/// Folding the two sides of the bucket partition and joining them restores
/// the fold of the whole input.
proof fn lemma_fold_sides(s: Seq<PrimitiveInfo>, cb: AABB, dim: int, mb: int)
    ensures
        aabb_union_s(
            fold_infos_s(side_s(s, cb, dim, mb, true)),
            fold_infos_s(side_s(s, cb, dim, mb, false)),
        ) == fold_infos_s(s),
    decreases s.len(),
{
    if s.len() == 0 {
        lemma_union_empty(aabb_empty_s());
    } else {
        let d = s.drop_last();
        lemma_fold_sides(d, cb, dim, mb);
        let l = fold_infos_s(side_s(d, cb, dim, mb, true));
        let rr = fold_infos_s(side_s(d, cb, dim, mb, false));
        let bx = s.last().aabb;
        if bucket_of_s(cb, s.last().center, dim) <= mb {
            assert(side_s(s, cb, dim, mb, true).drop_last() =~= side_s(d, cb, dim, mb, true));
            assert(fold_infos_s(side_s(s, cb, dim, mb, true)) == aabb_union_s(l, bx));
            lemma_union_assoc(l, bx, rr);
            lemma_union_comm(bx, rr);
            lemma_union_assoc(l, rr, bx);
        } else {
            assert(side_s(s, cb, dim, mb, false).drop_last() =~= side_s(d, cb, dim, mb, false));
            assert(fold_infos_s(side_s(s, cb, dim, mb, false)) == aabb_union_s(rr, bx));
            lemma_union_assoc(l, rr, bx);
        }
    }
}

/// Per-index record counts of the two sides of the bucket partition sum to
/// the count over the whole input.
proof fn lemma_count_sides(s: Seq<PrimitiveInfo>, cb: AABB, dim: int, mb: int, i: usize)
    ensures
        count_idx_infos_s(side_s(s, cb, dim, mb, true), i) + count_idx_infos_s(
            side_s(s, cb, dim, mb, false),
            i,
        ) == count_idx_infos_s(s, i),
    decreases s.len(),
{
    if s.len() > 0 {
        let d = s.drop_last();
        lemma_count_sides(d, cb, dim, mb, i);
        if bucket_of_s(cb, s.last().center, dim) <= mb {
            assert(side_s(s, cb, dim, mb, true).drop_last() =~= side_s(d, cb, dim, mb, true));
        } else {
            assert(side_s(s, cb, dim, mb, false).drop_last() =~= side_s(d, cb, dim, mb, false));
        }
    }
}

/// Occurrences of index `i` among the build records.
spec fn count_idx_infos_s(s: Seq<PrimitiveInfo>, i: usize) -> int
    decreases s.len(),
{
    if s.len() == 0 {
        0
    } else {
        count_idx_infos_s(s.drop_last(), i) + if s.last().idx == i {
            1int
        } else {
            0int
        }
    }
}

/// What `object_split` promises of a successful split: the two sides are
/// drawn from the input and jointly cover it, and each side's box is exactly
/// the union of its records' boxes.
spec fn split_ok(sr: SplitResult, input: Seq<PrimitiveInfo>) -> bool {
    &&& sr.left@.len() + sr.right@.len() == input.len()
    &&& forall|k: int| 0 <= k < sr.left@.len() ==> input.contains(#[trigger] sr.left@[k])
    &&& forall|k: int| 0 <= k < sr.right@.len() ==> input.contains(#[trigger] sr.right@[k])
    &&& forall|j: int|
        0 <= j < input.len() ==> sr.left@.contains(#[trigger] input[j]) || sr.right@.contains(
            input[j],
        )
    &&& sr.left_aabb == fold_infos_s(sr.left@)
    &&& sr.right_aabb == fold_infos_s(sr.right@)
}

/// One axis of the cost-driven object split: bucket the centroids, price
/// every boundary by the surface-area heuristic, and partition at the
/// cheapest one. `None` exactly when the centroids do not vary along this
/// axis; a successful split has both sides nonempty and minimal cost.
#[verifier::rlimit(100)]
fn object_split(prims: &Vec<PrimitiveInfo>, dim: usize) -> (r: Option<SplitResult>)
    requires
        dim < 3,
        prims@.len() >= 1,
    ensures
        r is Some <==> comp_s(fold_centers_s(prims@).min, dim as int) != comp_s(
            fold_centers_s(prims@).max,
            dim as int,
        ),
        r is Some ==> split_ok(r->0, prims@),
        r is Some ==> exists|mb: int|
            #[trigger] split_at_s(r->0, prims@, fold_centers_s(prims@), dim as int, mb),
        r is Some ==> r->0.left@.len() >= 1 && r->0.right@.len() >= 1,
        r is Some ==> r->0.bounds == fold_infos_s(prims@),
{
    let ghost all = prims@;
    let mut bounds = AABB::empty();
    let mut center_bounds = AABB::empty();
    let mut k: usize = 0;
    while k < prims.len()
        invariant
            k <= all.len(),
            all == prims@,
            bounds == fold_infos_s(all.take(k as int)),
            center_bounds == fold_centers_s(all.take(k as int)),
        decreases prims@.len() - k,
    {
        bounds = bounds.union(&prims[k].aabb);
        center_bounds = center_bounds.union_p(&prims[k].center);
        proof {
            assert(all.take(k as int + 1).drop_last() =~= all.take(k as int));
            assert(all.take(k as int + 1).last() == all[k as int]);
        }
        k = k + 1;
    }
    proof {
        assert(all.take(all.len() as int) =~= all);
    }
    let ghost cb = fold_centers_s(all);
    if comp(&center_bounds.min, dim) == comp(&center_bounds.max, dim) {
        return None;
    }
    let mut buckets: Vec<BucketInfo> = Vec::new();
    let mut b: usize = 0;
    while b < OBJECT_SPLIT_BUCKETS
        invariant
            buckets@.len() == b as int,
            b <= OBJECT_SPLIT_BUCKETS,
            forall|i: int| 0 <= i < b as int ==> (#[trigger] buckets@[i]).count == 0,
            forall|i: int| 0 <= i < b as int ==> (#[trigger] buckets@[i]).aabb == aabb_empty_s(),
        decreases OBJECT_SPLIT_BUCKETS - b,
    {
        buckets.push(BucketInfo { count: 0, aabb: AABB::empty() });
        b = b + 1;
    }
    let mut k: usize = 0;
    while k < prims.len()
        invariant
            k <= all.len(),
            all == prims@,
            cb == fold_centers_s(all),
            center_bounds == cb,
            buckets@.len() == OBJECT_SPLIT_BUCKETS as int,
            dim < 3,
            forall|i: int|
                0 <= i < OBJECT_SPLIT_BUCKETS as int ==> (#[trigger] buckets@[i]).count <= k,
            forall|i: int|
                0 <= i < OBJECT_SPLIT_BUCKETS as int ==> (#[trigger] buckets@[i]).count as int
                    == bucket_count_s(all.take(k as int), cb, dim as int, i),
            forall|i: int|
                0 <= i < OBJECT_SPLIT_BUCKETS as int ==> (#[trigger] buckets@[i]).aabb
                    == bucket_box_s(all.take(k as int), cb, dim as int, i),
        decreases prims@.len() - k,
    {
        let bi = bucket_of(&center_bounds, &prims[k].center, dim);
        let cnt = buckets[bi].count;
        let bx = buckets[bi].aabb.union(&prims[k].aabb);
        buckets[bi] = BucketInfo { count: cnt + 1, aabb: bx };
        proof {
            assert(all.take(k as int + 1).drop_last() =~= all.take(k as int));
            assert(all.take(k as int + 1).last() == all[k as int]);
        }
        k = k + 1;
    }
    proof {
        assert(all.take(all.len() as int) =~= all);
    }
    let area_total = bounds.surface_area();
    let mut cost: Vec<i64> = Vec::new();
    let mut i: usize = 0;
    while i < OBJECT_SPLIT_BUCKETS - 1
        invariant
            cost@.len() == i as int,
            i <= OBJECT_SPLIT_BUCKETS - 1,
            all == prims@,
            cb == fold_centers_s(all),
            dim < 3,
            buckets@.len() == OBJECT_SPLIT_BUCKETS as int,
            area_total as int == aabb_area_s(fold_infos_s(all)),
            forall|b: int|
                0 <= b < OBJECT_SPLIT_BUCKETS as int ==> (#[trigger] buckets@[b]).count as int
                    == bucket_count_s(all, cb, dim as int, b),
            forall|b: int|
                0 <= b < OBJECT_SPLIT_BUCKETS as int ==> (#[trigger] buckets@[b]).aabb
                    == bucket_box_s(all, cb, dim as int, b),
            forall|ii: int|
                0 <= ii < i as int ==> (#[trigger] cost@[ii]) as int == sah_cost_s(
                    all,
                    cb,
                    dim as int,
                    ii,
                ),
        decreases OBJECT_SPLIT_BUCKETS - 1 - i,
    {
        let mut aabb_left = AABB::empty();
        let mut aabb_right = AABB::empty();
        let mut count_left: u128 = 0;
        let mut count_right: u128 = 0;
        let mut j: usize = 0;
        while j < OBJECT_SPLIT_BUCKETS
            invariant
                j <= OBJECT_SPLIT_BUCKETS,
                i < OBJECT_SPLIT_BUCKETS - 1,
                all == prims@,
                cb == fold_centers_s(all),
                dim < 3,
                buckets@.len() == OBJECT_SPLIT_BUCKETS as int,
                forall|b: int|
                    0 <= b < OBJECT_SPLIT_BUCKETS as int ==> (#[trigger] buckets@[b]).count as int
                        == bucket_count_s(all, cb, dim as int, b),
                forall|b: int|
                    0 <= b < OBJECT_SPLIT_BUCKETS as int ==> (#[trigger] buckets@[b]).aabb
                        == bucket_box_s(all, cb, dim as int, b),
                count_left <= (j as u128) * 0xffffffffffffffffu128,
                count_right <= (j as u128) * 0xffffffffffffffffu128,
                j as int <= i as int + 1 ==> {
                    &&& aabb_left == box_range_s(all, cb, dim as int, 0, j as int)
                    &&& count_left as int == count_range_s(all, cb, dim as int, 0, j as int)
                    &&& aabb_right == aabb_empty_s()
                    &&& count_right == 0
                },
                j as int > i as int + 1 ==> {
                    &&& aabb_left == box_range_s(all, cb, dim as int, 0, i as int + 1)
                    &&& count_left as int == count_range_s(all, cb, dim as int, 0, i as int + 1)
                    &&& aabb_right == box_range_s(all, cb, dim as int, i as int + 1, j as int)
                    &&& count_right as int == count_range_s(
                        all,
                        cb,
                        dim as int,
                        i as int + 1,
                        j as int,
                    )
                },
            decreases OBJECT_SPLIT_BUCKETS - j,
        {
            proof {
                assert(box_range_s(all, cb, dim as int, i as int + 1, i as int + 1)
                    == aabb_empty_s());
                assert(count_range_s(all, cb, dim as int, i as int + 1, i as int + 1) == 0);
            }
            if j <= i {
                aabb_left = aabb_left.union(&buckets[j].aabb);
                count_left = count_left + (buckets[j].count as u128);
            } else {
                aabb_right = aabb_right.union(&buckets[j].aabb);
                count_right = count_right + (buckets[j].count as u128);
            }
            j = j + 1;
        }
        let c = fx_add(
            FX_ONE,
            fx_div(
                fx_add(
                    fx_mul(fx_from_u128(count_left), aabb_left.surface_area()),
                    fx_mul(fx_from_u128(count_right), aabb_right.surface_area()),
                ),
                area_total,
            ),
        );
        proof {
            assert(c as int == sah_cost_s(all, cb, dim as int, i as int));
        }
        cost.push(c);
        i = i + 1;
    }
    let mut min_cost = cost[0];
    let mut min_bucket: usize = 0;
    let mut i: usize = 1;
    while i < OBJECT_SPLIT_BUCKETS - 1
        invariant
            cost@.len() == (OBJECT_SPLIT_BUCKETS - 1) as int,
            min_bucket < OBJECT_SPLIT_BUCKETS - 1,
            i <= OBJECT_SPLIT_BUCKETS - 1,
            all == prims@,
            cb == fold_centers_s(all),
            dim < 3,
            min_cost == cost@[min_bucket as int],
            forall|ii: int| 0 <= ii < i as int ==> (#[trigger] cost@[ii]) >= min_cost,
            forall|ii: int|
                0 <= ii < (OBJECT_SPLIT_BUCKETS - 1) as int ==> (#[trigger] cost@[ii]) as int
                    == sah_cost_s(all, cb, dim as int, ii),
        decreases OBJECT_SPLIT_BUCKETS - 1 - i,
    {
        if cost[i] < min_cost {
            min_cost = cost[i];
            min_bucket = i;
        }
        i = i + 1;
    }
    let mut left: Vec<PrimitiveInfo> = Vec::new();
    let mut right: Vec<PrimitiveInfo> = Vec::new();
    let mut left_aabb = AABB::empty();
    let mut right_aabb = AABB::empty();
    let mut k: usize = 0;
    while k < prims.len()
        invariant
            k <= all.len(),
            all == prims@,
            cb == fold_centers_s(all),
            center_bounds == cb,
            dim < 3,
            min_bucket < OBJECT_SPLIT_BUCKETS - 1,
            left@.len() + right@.len() == k as int,
            forall|j: int| 0 <= j < left@.len() ==> prims@.contains(#[trigger] left@[j]),
            forall|j: int| 0 <= j < right@.len() ==> prims@.contains(#[trigger] right@[j]),
            forall|j: int|
                0 <= j < k as int ==> left@.contains(#[trigger] prims@[j]) || right@.contains(
                    prims@[j],
                ),
            left_aabb == fold_infos_s(left@),
            right_aabb == fold_infos_s(right@),
            left@ == side_s(all.take(k as int), cb, dim as int, min_bucket as int, true),
            right@ == side_s(all.take(k as int), cb, dim as int, min_bucket as int, false),
        decreases prims@.len() - k,
    {
        let pi = prims[k];
        proof {
            assert(prims@[k as int] == pi);
            assert(prims@.contains(pi));
            assert(all.take(k as int + 1).drop_last() =~= all.take(k as int));
            assert(all.take(k as int + 1).last() == all[k as int]);
        }
        if bucket_of(&center_bounds, &pi.center, dim) <= min_bucket {
            let ghost old_left = left@;
            left.push(pi);
            left_aabb = left_aabb.union(&pi.aabb);
            proof {
                lemma_push_keeps(old_left, pi, prims@, k as int, right@);
                assert(left@.drop_last() =~= old_left);
                assert(left@ =~= old_left.push(pi));
            }
        } else {
            let ghost old_right = right@;
            right.push(pi);
            right_aabb = right_aabb.union(&pi.aabb);
            proof {
                lemma_push_keeps(old_right, pi, prims@, k as int, left@);
                assert(right@.drop_last() =~= old_right);
                assert(right@ =~= old_right.push(pi));
            }
        }
        k = k + 1;
    }
    proof {
        assert(all.take(all.len() as int) =~= all);
        lemma_centers_attained(all, dim as int);
        let kmin = choose|k: int|
            0 <= k < all.len() && comp_s((#[trigger] all[k]).center, dim as int) == comp_s(
                cb.min,
                dim as int,
            );
        let kmax = choose|k: int|
            0 <= k < all.len() && comp_s((#[trigger] all[k]).center, dim as int) == comp_s(
                cb.max,
                dim as int,
            );
        lemma_bucket_at_min(cb, all[kmin].center, dim as int);
        lemma_side_nonempty(all, cb, dim as int, min_bucket as int, true, kmin);
        lemma_bucket_at_max(cb, all[kmax].center, dim as int);
        lemma_side_nonempty(all, cb, dim as int, min_bucket as int, false, kmax);
    }
    let r = Some(SplitResult { cost: min_cost, left, left_aabb, right, right_aabb, bounds });
    proof {
        assert(all.take(all.len() as int) == all);
        assert(r->0.left@ == side_s(all, cb, dim as int, min_bucket as int, true));
        assert(r->0.right@ == side_s(all, cb, dim as int, min_bucket as int, false));
        assert(r->0.cost as int == sah_cost_s(all, cb, dim as int, min_bucket as int));
        assert forall|j: int|
            0 <= j < OBJECT_SPLIT_BUCKETS as int - 1 implies sah_cost_s(all, cb, dim as int, j)
            >= r->0.cost as int by {
            assert(cost@[j] >= min_cost);
        }
        assert(split_at_s(r->0, all, cb, dim as int, min_bucket as int));
    }
    r
}

/// Pushing one more input record onto a partition side keeps membership and
/// coverage facts intact.
proof fn lemma_push_keeps(
    side: Seq<PrimitiveInfo>,
    pi: PrimitiveInfo,
    input: Seq<PrimitiveInfo>,
    k: int,
    other: Seq<PrimitiveInfo>,
)
    requires
        0 <= k < input.len(),
        input[k] == pi,
        forall|j: int| 0 <= j < side.len() ==> input.contains(#[trigger] side[j]),
        forall|j: int|
            0 <= j < k ==> side.contains(#[trigger] input[j]) || other.contains(input[j]),
    ensures
        forall|j: int| 0 <= j < side.push(pi).len() ==> input.contains(#[trigger] side.push(pi)[j]),
        forall|j: int|
            0 <= j < k + 1 ==> side.push(pi).contains(#[trigger] input[j]) || other.contains(
                input[j],
            ),
{
    let new = side.push(pi);
    assert forall|j: int| 0 <= j < new.len() implies input.contains(#[trigger] new[j]) by {
        if j < side.len() {
            assert(new[j] == side[j]);
        } else {
            assert(new[j] == pi);
            assert(input.contains(pi));
        }
    }
    assert forall|j: int|
        0 <= j < k + 1 implies new.contains(#[trigger] input[j]) || other.contains(input[j]) by {
        if j == k {
            assert(new[side.len() as int] == pi);
            assert(new.contains(input[j]));
        } else {
            if side.contains(input[j]) {
                let jj = choose|jj: int| 0 <= jj < side.len() && side[jj] == input[j];
                assert(new[jj] == input[j]);
                assert(new.contains(input[j]));
            }
        }
    }
}

/// An index list aligned with build records folds to the same box.
proof fn lemma_fold_idx_aligned(
    idxs: Seq<usize>,
    infos: Seq<PrimitiveInfo>,
    ps: Seq<ShapePrimitive>,
)
    requires
        idxs.len() == infos.len(),
        info_wf(infos, ps),
        forall|j: int| 0 <= j < idxs.len() ==> #[trigger] idxs[j] == infos[j].idx,
    ensures
        fold_idx_boxes_s(idxs, ps) == fold_infos_s(infos),
    decreases idxs.len(),
{
    if idxs.len() > 0 {
        let di = idxs.drop_last();
        let dn = infos.drop_last();
        assert forall|j: int| 0 <= j < di.len() implies #[trigger] di[j] == dn[j].idx by {
            assert(di[j] == idxs[j] && dn[j] == infos[j]);
        }
        assert forall|j: int|
            0 <= j < dn.len() implies ({
            let pi = #[trigger] dn[j];
            (pi.idx as int) < ps.len() && ps[pi.idx as int].aabb is Some && pi.aabb
                == ps[pi.idx as int].aabb->0
        }) by {
            assert(dn[j] == infos[j]);
        }
        lemma_fold_idx_aligned(di, dn, ps);
        assert(idxs.last() == infos.last().idx);
        assert(infos[infos.len() - 1] == infos.last());
        assert(ps[idxs.last() as int].aabb->0 == infos.last().aabb);
    }
}

/// Aligned index lists carry the per-index counts of their records.
proof fn lemma_count_aligned(idxs: Seq<usize>, infos: Seq<PrimitiveInfo>, i: usize)
    requires
        idxs.len() == infos.len(),
        forall|j: int| 0 <= j < idxs.len() ==> #[trigger] idxs[j] == infos[j].idx,
    ensures
        count_usize_s(idxs, i) == count_idx_infos_s(infos, i),
    decreases idxs.len(),
{
    if idxs.len() > 0 {
        let di = idxs.drop_last();
        let dn = infos.drop_last();
        assert forall|j: int| 0 <= j < di.len() implies #[trigger] di[j] == dn[j].idx by {
            assert(di[j] == idxs[j] && dn[j] == infos[j]);
        }
        lemma_count_aligned(di, dn, i);
        assert(idxs.last() == infos.last().idx);
    }
}

/// Wrap the records into a leaf holding just their indices.
fn new_leaf(aabb: AABB, prims: &Vec<PrimitiveInfo>, Ghost(ps): Ghost<Seq<ShapePrimitive>>) -> (t:
    Box<BVH>)
    requires
        info_wf(prims@, ps),
        aabb == fold_infos_s(prims@),
    ensures
        t.wf(ps),
        t.aabb_of() == aabb,
        forall|i: usize| #[trigger] t.has_idx(i) <==> infos_has(prims@, i),
        t.boxes_tight(ps),
        forall|i: usize| #[trigger] t.idx_count(i) == count_idx_infos_s(prims@, i),
{
    let mut idxs: Vec<usize> = Vec::new();
    let mut k: usize = 0;
    while k < prims.len()
        invariant
            k <= prims@.len(),
            idxs@.len() == k as int,
            forall|j: int| 0 <= j < k as int ==> #[trigger] idxs@[j] == prims@[j].idx,
        decreases prims@.len() - k,
    {
        idxs.push(prims[k].idx);
        k = k + 1;
    }
    let t = Box::new(BVH::Leaf { aabb, prims: idxs });
    proof {
        lemma_fold_infos_contains(prims@);
        assert forall|i: usize| #[trigger] t.has_idx(i) implies infos_has(prims@, i) by {
            let j = choose|j: int| 0 <= j < t->Leaf_prims@.len() && t->Leaf_prims@[j] == i;
            assert(prims@[j].idx == i);
        }
        assert forall|i: usize| infos_has(prims@, i) implies #[trigger] t.has_idx(i) by {
            let j = choose|j: int| 0 <= j < prims@.len() && (#[trigger] prims@[j]).idx == i;
            assert(t->Leaf_prims@[j] == i);
            assert(t->Leaf_prims@.contains(i));
        }
        lemma_fold_idx_aligned(t->Leaf_prims@, prims@, ps);
        assert forall|i: usize| #[trigger] t.idx_count(i) == count_idx_infos_s(prims@, i) by {
            lemma_count_aligned(t->Leaf_prims@, prims@, i);
        }
    }
    t
}

/// Recursive build: small sets become leaves; otherwise take the cheapest
/// axis split, or give up and emit a leaf when no split is available or none
/// beats testing every primitive here.
#[verifier::rlimit(100)]
fn new_sorted(aabb: AABB, prims: Vec<PrimitiveInfo>, Ghost(ps): Ghost<Seq<ShapePrimitive>>) -> (t:
    Box<BVH>)
    requires
        prims@.len() >= 1,
        info_wf(prims@, ps),
        aabb == fold_infos_s(prims@),
    ensures
        t.wf(ps),
        t.aabb_of() == aabb,
        forall|i: usize| #[trigger] t.has_idx(i) <==> infos_has(prims@, i),
        t.boxes_tight(ps),
        forall|i: usize| #[trigger] t.idx_count(i) == count_idx_infos_s(prims@, i),
    decreases prims@.len(),
{
    if prims.len() <= MAX_PRIMITIVES_PER_NODE {
        return new_leaf(aabb, &prims, Ghost(ps));
    }
    let mut splits: Vec<SplitResult> = Vec::new();
    let mut dim: usize = 0;
    while dim < 3
        invariant
            dim <= 3,
            prims@.len() >= 1,
            forall|j: int| 0 <= j < splits@.len() ==> split_ok(#[trigger] splits@[j], prims@),
            forall|j: int|
                0 <= j < splits@.len() ==> (#[trigger] splits@[j]).left@.len() >= 1
                    && splits@[j].right@.len() >= 1,
            forall|j: int|
                0 <= j < splits@.len() ==> aabb_union_s(
                    fold_infos_s((#[trigger] splits@[j]).left@),
                    fold_infos_s(splits@[j].right@),
                ) == fold_infos_s(prims@),
            forall|j: int, i: usize|
                0 <= j < splits@.len() ==> #[trigger] count_idx_infos_s(splits@[j].left@, i)
                    + count_idx_infos_s(splits@[j].right@, i) == count_idx_infos_s(prims@, i),
        decreases 3 - dim,
    {
        let ghost old_splits = splits@;
        if let Some(sr) = object_split(&prims, dim) {
            proof {
                let ghost cbd = fold_centers_s(prims@);
                let mbw = choose|mb: int| split_at_s(sr, prims@, cbd, dim as int, mb);
                lemma_fold_sides(prims@, cbd, dim as int, mbw);
                assert(aabb_union_s(fold_infos_s(sr.left@), fold_infos_s(sr.right@))
                    == fold_infos_s(prims@));
                assert forall|i: usize|
                    #[trigger] count_idx_infos_s(sr.left@, i) + count_idx_infos_s(sr.right@, i)
                        == count_idx_infos_s(prims@, i) by {
                    lemma_count_sides(prims@, cbd, dim as int, mbw, i);
                }
            }
            splits.push(sr);
            proof {
                assert forall|j: int|
                    0 <= j < splits@.len() implies split_ok(#[trigger] splits@[j], prims@)
                    && splits@[j].left@.len() >= 1 && splits@[j].right@.len() >= 1
                    && aabb_union_s(
                    fold_infos_s(splits@[j].left@),
                    fold_infos_s(splits@[j].right@),
                ) == fold_infos_s(prims@) by {
                    if j < old_splits.len() {
                        assert(splits@[j] == old_splits[j]);
                    } else {
                        assert(splits@[j] == sr);
                    }
                }
                assert forall|j: int, i: usize|
                    0 <= j < splits@.len() implies #[trigger] count_idx_infos_s(
                    splits@[j].left@,
                    i,
                ) + count_idx_infos_s(splits@[j].right@, i) == count_idx_infos_s(prims@, i) by {
                    if j < old_splits.len() {
                        assert(splits@[j] == old_splits[j]);
                        assert(count_idx_infos_s(old_splits[j].left@, i) + count_idx_infos_s(
                            old_splits[j].right@,
                            i,
                        ) == count_idx_infos_s(prims@, i));
                    } else {
                        assert(splits@[j] == sr);
                    }
                }
            }
        }
        dim = dim + 1;
    }
    if splits.len() == 0 {
        return new_leaf(aabb, &prims, Ghost(ps));
    }
    let mut best: usize = 0;
    let mut i: usize = 1;
    while i < splits.len()
        invariant
            best < splits@.len(),
            i <= splits@.len(),
        decreases splits@.len() - i,
    {
        if splits[i].cost < splits[best].cost {
            best = i;
        }
        i = i + 1;
    }
    let split = splits.swap_remove(best);
    proof {
        assert(split_ok(split, prims@));
        assert(split.left@.len() >= 1 && split.right@.len() >= 1);
        assert(aabb_union_s(fold_infos_s(split.left@), fold_infos_s(split.right@))
            == fold_infos_s(prims@));
    }
    if split.cost >= fx_from_usize(prims.len()) {
        return new_leaf(aabb, &prims, Ghost(ps));
    }
    let ghost lseq = split.left@;
    let ghost rseq = split.right@;
    proof {
        lemma_fold_infos_contains(prims@);
        lemma_side_wf(lseq, prims@, ps, aabb);
        lemma_side_wf(rseq, prims@, ps, aabb);
    }
    let left_t = new_sorted(split.left_aabb, split.left, Ghost(ps));
    let right_t = new_sorted(split.right_aabb, split.right, Ghost(ps));
    let t = Box::new(BVH::Node { aabb, left: left_t, right: right_t });
    proof {
        lemma_union_contains(fold_infos_s(lseq), fold_infos_s(rseq));
        assert(aabb_contains_box(aabb, left_t.aabb_of()));
        assert(aabb_contains_box(aabb, right_t.aabb_of()));
        assert(t.boxes_tight(ps));
        assert forall|i: usize|
            #[trigger] t.idx_count(i) == count_idx_infos_s(prims@, i) by {
            assert(left_t.idx_count(i) == count_idx_infos_s(lseq, i));
            assert(right_t.idx_count(i) == count_idx_infos_s(rseq, i));
            assert(count_idx_infos_s(lseq, i) + count_idx_infos_s(rseq, i) == count_idx_infos_s(
                prims@,
                i,
            ));
        }
        assert forall|i: usize| #[trigger] t.has_idx(i) implies infos_has(prims@, i) by {
            if left_t.has_idx(i) {
                assert(infos_has(lseq, i));
                let k = choose|k: int| 0 <= k < lseq.len() && (#[trigger] lseq[k]).idx == i;
                assert(prims@.contains(lseq[k]));
                let j = choose|j: int| 0 <= j < prims@.len() && prims@[j] == lseq[k];
                assert(prims@[j].idx == i);
            } else {
                assert(right_t.has_idx(i));
                assert(infos_has(rseq, i));
                let k = choose|k: int| 0 <= k < rseq.len() && (#[trigger] rseq[k]).idx == i;
                assert(prims@.contains(rseq[k]));
                let j = choose|j: int| 0 <= j < prims@.len() && prims@[j] == rseq[k];
                assert(prims@[j].idx == i);
            }
        }
        assert forall|i: usize| infos_has(prims@, i) implies #[trigger] t.has_idx(i) by {
            let j = choose|j: int| 0 <= j < prims@.len() && (#[trigger] prims@[j]).idx == i;
            if lseq.contains(prims@[j]) {
                let k = choose|k: int| 0 <= k < lseq.len() && lseq[k] == prims@[j];
                assert((#[trigger] lseq[k]).idx == i);
                assert(infos_has(lseq, i));
                assert(left_t.has_idx(i));
            } else {
                assert(rseq.contains(prims@[j]));
                let k = choose|k: int| 0 <= k < rseq.len() && rseq[k] == prims@[j];
                assert((#[trigger] rseq[k]).idx == i);
                assert(infos_has(rseq, i));
                assert(right_t.has_idx(i));
            }
        }
    }
    t
}

/// A partition side drawn from well-formed records is well formed itself,
/// and its boxes stay inside the parent box.
proof fn lemma_side_wf(
    side: Seq<PrimitiveInfo>,
    input: Seq<PrimitiveInfo>,
    ps: Seq<ShapePrimitive>,
    aabb: AABB,
)
    requires
        info_wf(input, ps),
        forall|k: int| 0 <= k < input.len() ==> aabb_contains_box(aabb, (#[trigger] input[k]).aabb),
        forall|k: int| 0 <= k < side.len() ==> input.contains(#[trigger] side[k]),
    ensures
        info_wf(side, ps),
        forall|k: int| 0 <= k < side.len() ==> aabb_contains_box(aabb, (#[trigger] side[k]).aabb),
{
    assert forall|k: int|
        0 <= k < side.len() implies ({
        let pi = #[trigger] side[k];
        (pi.idx as int) < ps.len() && ps[pi.idx as int].aabb is Some && pi.aabb == ps[pi.idx as int].aabb->0
            && aabb_contains_box(aabb, pi.aabb)
    }) by {
        let j = choose|j: int| 0 <= j < input.len() && input[j] == side[k];
        assert(input[j] == side[k]);
    }
}

impl BVH {
    /// Build the hierarchy over the whole collection. Every primitive must
    /// carry a bounding box, and there must be at least one: a scene with
    /// nothing to hit is a configuration error the caller rules out. The
    /// tree indexes each primitive exactly once, and every stored box is
    /// exactly the union of the primitive boxes beneath it, the root being
    /// the union of them all.
    pub fn new(prims: &Vec<ShapePrimitive>) -> (t: Box<BVH>)
        requires
            prims@.len() >= 1,
            forall|k: int| 0 <= k < prims@.len() ==> (#[trigger] prims@[k]).aabb is Some,
        ensures
            t.wf(prims@),
            forall|i: usize| #[trigger] t.has_idx(i) <==> (i as int) < prims@.len(),
            t.boxes_tight(prims@),
            t.aabb_of() == aabb_fold_prims_s(prims@),
            forall|i: usize| #[trigger] t.idx_count(i) == if (i as int) < prims@.len() {
                1int
            } else {
                0int
            },
    {
        let mut infos: Vec<PrimitiveInfo> = Vec::new();
        let mut total = AABB::empty();
        let mut k: usize = 0;
        while k < prims.len()
            invariant
                k <= prims@.len(),
                infos@.len() == k as int,
                forall|j: int| 0 <= j < prims@.len() ==> (#[trigger] prims@[j]).aabb is Some,
                info_wf(infos@, prims@),
                forall|j: int| 0 <= j < k as int ==> (#[trigger] infos@[j]).idx == j,
                total == fold_infos_s(infos@),
                total == aabb_fold_prims_s(prims@.take(k as int)),
                forall|i: usize| #[trigger] count_idx_infos_s(infos@, i) == if (i as int)
                    < k as int {
                    1int
                } else {
                    0int
                },
            decreases prims@.len() - k,
        {
            let ghost old_infos = infos@;
            let bx = match prims[k].bounding_box() {
                Some(b) => b,
                None => vstd::pervasive::unreached(),
            };
            let info = PrimitiveInfo { idx: k, aabb: bx, center: bx.center() };
            infos.push(info);
            total = total.union(&bx);
            proof {
                assert(infos@.drop_last() =~= old_infos);
                assert(prims@.take(k as int + 1).drop_last() =~= prims@.take(k as int));
                assert(prims@.take(k as int + 1).last() == prims@[k as int]);
                assert forall|j: int|
                    0 <= j < infos@.len() implies ({
                    let pi = #[trigger] infos@[j];
                    (pi.idx as int) < prims@.len() && prims@[pi.idx as int].aabb is Some
                        && pi.aabb == prims@[pi.idx as int].aabb->0
                }) by {
                    if j < old_infos.len() {
                        assert(infos@[j] == old_infos[j]);
                    }
                }
                assert forall|i: usize| #[trigger] count_idx_infos_s(infos@, i) == if (i as int)
                    < k as int + 1 {
                    1int
                } else {
                    0int
                } by {
                    assert(count_idx_infos_s(old_infos, i) == if (i as int) < k as int {
                        1int
                    } else {
                        0int
                    });
                }
            }
            k = k + 1;
        }
        proof {
            assert(prims@.take(prims@.len() as int) =~= prims@);
        }
        let ghost iseq = infos@;
        let t = new_sorted(total, infos, Ghost(prims@));
        proof {
            assert forall|i: usize| #[trigger] t.has_idx(i) implies (i as int) < prims@.len() by {
                let k = choose|k: int| 0 <= k < iseq.len() && (#[trigger] iseq[k]).idx == i;
            }
            assert forall|i: usize| (i as int) < prims@.len() implies #[trigger] t.has_idx(i) by {
                assert(iseq[i as int].idx == i);
                assert(infos_has(iseq, i));
            }
        }
        t
    }
}

} // verus!
