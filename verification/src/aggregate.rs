//! The scene root: one owned primitive collection with the hierarchy built
//! over it. Its query contract is stated against plain linear search over
//! the whole collection, so using the tree can never change an answer.

use vstd::prelude::*;

use crate::geom::Ray3f;
use crate::material::material_wf;
use crate::prims::{aabb_fold_prims_s, prim_hit_s, ShapePrimitive, SurfaceInteraction, BVH};
use crate::shape::AABB;

verus! {

pub struct Aggregate {
    prims: Vec<ShapePrimitive>,
    bvh: Box<BVH>,
}

/// The closer of two optional hits; ties keep the later one, as the linear
/// scan does.
pub open spec fn combine_hits_s(
    a: Option<SurfaceInteraction>,
    b: Option<SurfaceInteraction>,
) -> Option<SurfaceInteraction> {
    match (a, b) {
        (Option::None, h) => h,
        (h, Option::None) => h,
        (Option::Some(p), Option::Some(q)) => if p.t < q.t {
            Some(p)
        } else {
            Some(q)
        },
    }
}

/// Brute force over the first `n` primitives, in index order.
pub open spec fn brute_upto_s(ps: Seq<ShapePrimitive>, r: Ray3f, n: int) -> Option<
    SurfaceInteraction,
>
    decreases n,
{
    if n <= 0 {
        None
    } else {
        combine_hits_s(brute_upto_s(ps, r, n - 1), prim_hit_s(ps[n - 1], (n - 1) as usize, r))
    }
}

/// Plain linear intersection over the whole collection: the reference the
/// hierarchy is held to.
pub open spec fn brute_force_s(ps: Seq<ShapePrimitive>, r: Ray3f) -> Option<SurfaceInteraction> {
    brute_upto_s(ps, r, ps.len() as int)
}

/// The linear scan returns `None` exactly when nothing among the first `n`
/// primitives is hit, and otherwise one of their hits with minimal distance.
proof fn lemma_brute_char(ps: Seq<ShapePrimitive>, r: Ray3f, n: int)
    requires
        0 <= n <= ps.len(),
    ensures
        match brute_upto_s(ps, r, n) {
            Option::None => forall|j: int|
                0 <= j < n ==> prim_hit_s(ps[j], j as usize, r) is None,
            Option::Some(h) => {
                &&& exists|j: int|
                    0 <= j < n && prim_hit_s(ps[j], #[trigger] (j as usize), r) == Some(h)
                &&& forall|j: int|
                    0 <= j < n ==> (prim_hit_s(ps[j], #[trigger] (j as usize), r) is Some ==> h.t
                        <= prim_hit_s(ps[j], j as usize, r)->0.t)
            },
        },
    decreases n,
{
    if n > 0 {
        lemma_brute_char(ps, r, n - 1);
    }
}

impl Aggregate {
    /// The collection this aggregate owns.
    pub closed spec fn prims_s(&self) -> Seq<ShapePrimitive> {
        self.prims@
    }

    /// The tree indexes exactly the collection — each primitive in exactly
    /// one leaf slot — and stays inside its boxes.
    pub closed spec fn wf(&self) -> bool {
        &&& self.bvh.wf(self.prims@)
        &&& forall|i: usize| #[trigger] self.bvh.has_idx(i) <==> (i as int) < self.prims@.len()
        &&& forall|i: usize| #[trigger] self.bvh.idx_count(i) == if (i as int)
            < self.prims@.len() {
            1int
        } else {
            0int
        }
    }

    /// Every material in the scene is well formed.
    pub open spec fn materials_wf(&self) -> bool {
        forall|k: int|
            0 <= k < self.prims_s().len() ==> material_wf((#[trigger] self.prims_s()[k]).material)
    }

    pub closed spec fn aabb_s(&self) -> AABB {
        self.bvh.aabb_of()
    }

    /// Building over an empty collection, or over a primitive without a
    /// bounding box, is a fatal configuration error: callers rule it out.
    /// The aggregate's own box is exactly the union of the primitives'.
    pub fn new(prims: Vec<ShapePrimitive>) -> (a: Aggregate)
        requires
            prims@.len() >= 1,
            forall|k: int| 0 <= k < prims@.len() ==> (#[trigger] prims@[k]).aabb is Some,
        ensures
            a.wf(),
            a.prims_s() == prims@,
            a.aabb_s() == aabb_fold_prims_s(prims@),
    {
        let bvh = BVH::new(&prims);
        Aggregate { prims, bvh }
    }

    /// The nearest hit, answered through the hierarchy but specified against
    /// the brute-force scan: same hit-or-miss answer, same distance, and the
    /// returned record really is some primitive's hit.
    pub fn intersect(&self, r: Ray3f) -> (res: Option<SurfaceInteraction>)
        requires
            self.wf(),
        ensures
            res is Some <==> brute_force_s(self.prims_s(), r) is Some,
            res is Some ==> res->0.t == brute_force_s(self.prims_s(), r)->0.t,
            res is Some ==> exists|i: usize|
                (i as int) < self.prims_s().len() && #[trigger] prim_hit_s(
                    self.prims_s()[i as int],
                    i,
                    r,
                ) == res,
            res is Some ==> forall|i: usize|
                (i as int) < self.prims_s().len() ==> (#[trigger] prim_hit_s(
                    self.prims_s()[i as int],
                    i,
                    r,
                ) is Some ==> res->0.t <= prim_hit_s(self.prims_s()[i as int], i, r)->0.t),
            res is None ==> forall|i: usize|
                (i as int) < self.prims_s().len() ==> #[trigger] prim_hit_s(
                    self.prims_s()[i as int],
                    i,
                    r,
                ) is None,
    {
        let n = self.prims.len();
        let res = self.bvh.intersect(&self.prims, r);
        proof {
            let ps = self.prims@;
            lemma_brute_char(ps, r, n as int);
            let brute = brute_upto_s(ps, r, n as int);
            match res {
                Option::None => {
                    assert forall|i: usize| (i as int) < n as int implies #[trigger] prim_hit_s(
                        ps[i as int],
                        i,
                        r,
                    ) is None by {
                        assert(self.bvh.has_idx(i));
                    }
                    if brute is Some {
                        let j = choose|j: int|
                            0 <= j < n as int && prim_hit_s(ps[j], #[trigger] (j as usize), r)
                                == Some(brute->0);
                        assert(prim_hit_s(ps[(j as usize) as int], j as usize, r) is None);
                        assert(false);
                    }
                },
                Option::Some(h) => {
                    let i = choose|i: usize|
                        #[trigger] self.bvh.has_idx(i) && prim_hit_s(ps[i as int], i, r) == Some(
                            h,
                        );
                    assert((i as int) < n as int && prim_hit_s(ps[i as int], i, r) == res);
                    assert forall|ii: usize|
                        (ii as int) < n as int && #[trigger] prim_hit_s(
                            ps[ii as int],
                            ii,
                            r,
                        ) is Some implies h.t <= prim_hit_s(ps[ii as int], ii, r)->0.t by {
                        assert(self.bvh.has_idx(ii));
                    }
                    if brute is None {
                        assert(prim_hit_s(ps[i as int], (i as int) as usize, r) is None);
                        assert(false);
                    }
                    let hb = brute->0;
                    let jb = choose|j: int|
                        0 <= j < n as int && prim_hit_s(ps[j], #[trigger] (j as usize), r) == Some(
                            hb,
                        );
                    assert(self.bvh.has_idx(jb as usize));
                    assert(h.t <= prim_hit_s(ps[(jb as usize) as int], jb as usize, r)->0.t);
                    assert(prim_hit_s(ps[(i as int)], (i as int) as usize, r) is Some);
                    assert(hb.t <= prim_hit_s(ps[i as int], (i as int) as usize, r)->0.t);
                },
            }
        }
        res
    }

    pub fn bounding_box(&self) -> (r: Option<AABB>)
        ensures
            r == Some(self.aabb_s()),
    {
        self.bvh.bounding_box()
    }
}

} // verus!
