use vstd::prelude::*;
use crate::accum::Group;
use crate::boid::{boid_bounded, Boid};
use crate::math::{clamp_i64, div_trunc, isqrt, sclamp, tdiv};
use crate::vec3::{
    lemma_cross_bounded, lemma_sqrt_unique, lemma_v_scale_fp_bound, lemma_v_tdiv_bound, sqrt_of,
    v_add, v_bounded, v_cross, v_dot, v_normalized, v_scale_fp, v_sub, v_tdiv, v_zero, Vec3, V3,
};
use crate::SCALE;

verus! {

/// The behaviour parameters of one motion pass: how many leaf groups
/// are present, the distance travelled per step, the cohesion radius,
/// and the configured cohesion, steering and alignment weights, all in
/// fixed point.
#[derive(Clone, Copy, PartialEq, Eq, Structural, Debug)]
pub struct MotionParams {
    pub n_groups: u32,
    pub speed: i64,
    pub dist_thresh: i64,
    pub cohere: i64,
    pub steer: i64,
    pub parallel: i64,
}

/// The magnitude every behaviour parameter must stay within: sixteen
/// units, enough for any sensible configuration and small enough that
/// no blend can overflow.
pub open spec fn params_bounded(mp: MotionParams) -> bool {
    &&& -0x10_0000 <= mp.speed <= 0x10_0000
    &&& -0x10_0000 <= mp.dist_thresh <= 0x10_0000
    &&& -0x10_0000 <= mp.cohere <= 0x10_0000
    &&& -0x10_0000 <= mp.steer <= 0x10_0000
    &&& -0x10_0000 <= mp.parallel <= 0x10_0000
}

/// Every group handed to the motion pass is bounded like the agents
/// that produced it: centroid within the position bound, mean heading
/// within one unit.
pub open spec fn groups_bounded(gs: Seq<Group>, pb: int) -> bool {
    forall|j: int|
        0 <= j < gs.len() ==> v_bounded((#[trigger] gs[j]).center@, pb) && v_bounded(
            gs[j].heading@,
            SCALE as int,
        )
}

/// The normalized direction from the agent to a group's centroid; zero
/// when the two coincide.
pub open spec fn dir_to(b: Boid, g: Group) -> V3 {
    let off = v_sub(g.center@, b.pos@);
    if off == v_zero() {
        v_zero()
    } else {
        v_normalized(off)
    }
}

/// A group's normalized mean heading; zero for a zero heading.
pub open spec fn heading_dir(g: Group) -> V3 {
    if g.heading@ == v_zero() {
        v_zero()
    } else {
        v_normalized(g.heading@)
    }
}

/// The distance from the agent to a group's centroid, rounded down.
pub open spec fn dist_to(b: Boid, g: Group) -> int {
    sqrt_of(v_dot(v_sub(g.center@, b.pos@), v_sub(g.center@, b.pos@)))
}

pub open spec fn sum_dirs(b: Boid, gs: Seq<Group>) -> V3
    decreases gs.len(),
{
    if gs.len() == 0 {
        v_zero()
    } else {
        v_add(sum_dirs(b, gs.drop_last()), dir_to(b, gs.last()))
    }
}

pub open spec fn sum_headings(gs: Seq<Group>) -> V3
    decreases gs.len(),
{
    if gs.len() == 0 {
        v_zero()
    } else {
        v_add(sum_headings(gs.drop_last()), heading_dir(gs.last()))
    }
}

pub open spec fn sum_dists(b: Boid, gs: Seq<Group>) -> int
    decreases gs.len(),
{
    if gs.len() == 0 {
        0
    } else {
        sum_dists(b, gs.drop_last()) + dist_to(b, gs.last())
    }
}

/// The fixed-point cross product: the raw product rescaled back to
/// units.
pub open spec fn cross_fp(a: V3, b: V3) -> V3 {
    v_tdiv(v_cross(a, b), SCALE as int)
}

/// Linear interpolation from `a` to `b` by the fixed-point factor `t`.
pub open spec fn lerp_fp(a: V3, b: V3, t: int) -> V3 {
    v_add(a, v_scale_fp(v_sub(b, a), t))
}

/// The heading one motion step gives an agent. With no group present
/// the heading is unchanged. Otherwise the directions to all centroids,
/// the groups' headings and the distances are averaged; the cohesion
/// strength is the clamped shortfall of the mean distance under the
/// cohesion radius; the avoidance vector blends the heading crossed
/// with the mean direction toward the mean direction by that strength;
/// and the steered and aligned sum is normalized — unless it cancels to
/// zero, in which case the update is discarded and the old heading
/// kept.
pub open spec fn new_heading_of(b: Boid, gs: Seq<Group>, mp: MotionParams) -> V3 {
    if gs.len() == 0 {
        b.heading@
    } else {
        let n = gs.len() as int;
        let mean_dir = v_tdiv(sum_dirs(b, gs), n);
        let mean_hd = v_tdiv(sum_headings(gs), n);
        let mean_dist = tdiv(sum_dists(b, gs), n);
        let strength = sclamp(mp.dist_thresh - mean_dist, 0, SCALE as int);
        let blend = lerp_fp(cross_fp(b.heading@, mean_dir), mean_dir, strength);
        let cand = v_add(
            v_add(b.heading@, v_scale_fp(blend, mp.steer as int)),
            v_scale_fp(mean_hd, mp.parallel as int),
        );
        if cand == v_zero() {
            b.heading@
        } else {
            v_normalized(cand)
        }
    }
}

/// One motion pass over the whole population: every agent's heading is
/// steered toward and aligned with the present leaf groups, and its
/// position advances along the new heading by `speed`.
pub fn motion_pass(boids: &mut Vec<Boid>, groups: &Vec<Group>, mp: &MotionParams)
    requires
        old(boids)@.len() <= 0x10_0000,
        groups@.len() <= 0x10_0000,
        mp.n_groups as int == groups@.len(),
        params_bounded(*mp),
        groups_bounded(groups@, 0x100_0000_0000),
        forall|i: int|
            0 <= i < old(boids)@.len() ==> boid_bounded(#[trigger] old(boids)@[i], 0x100_0000_0000),
    ensures
        final(boids)@.len() == old(boids)@.len(),
        forall|i: int|
            0 <= i < old(boids)@.len() ==> {
                let b = old(boids)@[i];
                let nb = #[trigger] final(boids)@[i];
                &&& nb.level == b.level
                &&& nb.mask == b.mask
                &&& nb.heading@ == new_heading_of(b, groups@, *mp)
                &&& v_bounded(nb.heading@, SCALE as int)
                &&& nb.pos@ == v_add(b.pos@, v_scale_fp(nb.heading@, mp.speed as int))
                &&& v_bounded(nb.pos@, 0x100_0000_0000int + 0x10_0000)
            },
{
    let n: usize = boids.len();
    let ng: usize = groups.len();
    let mut i: usize = 0;
    while i < n
        invariant
            n == old(boids)@.len(),
            boids@.len() == n,
            ng == groups@.len(),
            n <= 0x10_0000,
            ng <= 0x10_0000,
            mp.n_groups as int == groups@.len(),
            params_bounded(*mp),
            groups_bounded(groups@, 0x100_0000_0000),
            forall|k: int|
                0 <= k < n ==> boid_bounded(#[trigger] old(boids)@[k], 0x100_0000_0000),
            forall|k: int| i <= k < n ==> #[trigger] boids@[k] == old(boids)@[k],
            forall|k: int|
                0 <= k < i ==> {
                    let b = old(boids)@[k];
                    let nb = #[trigger] boids@[k];
                    &&& nb.level == b.level
                    &&& nb.mask == b.mask
                    &&& nb.heading@ == new_heading_of(b, groups@, *mp)
                    &&& v_bounded(nb.heading@, SCALE as int)
                    &&& nb.pos@ == v_add(b.pos@, v_scale_fp(nb.heading@, mp.speed as int))
                    &&& v_bounded(nb.pos@, 0x100_0000_0000int + 0x10_0000)
                },
        decreases n - i,
    {
        let b: Boid = boids[i];
        let new_heading: Vec3 = if ng == 0 {
            b.heading
        } else {
            let mut sd: Vec3 = Vec3::zero();
            let mut sh: Vec3 = Vec3::zero();
            let mut sdist: i64 = 0;
            let mut j: usize = 0;
            while j < ng
                invariant
                    ng == groups@.len(),
                    ng <= 0x10_0000,
                    0 <= j <= ng,
                    groups_bounded(groups@, 0x100_0000_0000),
                    b == old(boids)@[i as int],
                    0 <= i < n,
                    boid_bounded(b, 0x100_0000_0000),
                    sd@ == sum_dirs(b, groups@.take(j as int)),
                    sh@ == sum_headings(groups@.take(j as int)),
                    sdist as int == sum_dists(b, groups@.take(j as int)),
                    v_bounded(sd@, j * 65536),
                    v_bounded(sh@, j * 65536),
                    0 <= sdist <= j * 0x400_0000_0000,
                decreases ng - j,
            {
                let g: Group = groups[j];
                let off: Vec3 = g.center.minus(&b.pos);
                let d2: i128 = off.dot_wide(&off);
                let dist: u64 = isqrt(d2 as u128);
                proof {
                    assert(v_dot(off@, off@) >= 0) by (nonlinear_arith);
                    lemma_sqrt_unique(v_dot(off@, off@), dist as int);
                    let ox = off@.x;
                    let oy = off@.y;
                    let oz = off@.z;
                    assert(ox * ox + oy * oy + oz * oz <= 3 * 0x200_0000_0000 * 0x200_0000_0000)
                        by (nonlinear_arith)
                        requires
                            -0x200_0000_0000 <= ox <= 0x200_0000_0000,
                            -0x200_0000_0000 <= oy <= 0x200_0000_0000,
                            -0x200_0000_0000 <= oz <= 0x200_0000_0000,
                    ;
                    assert(v_dot(off@, off@) == ox * ox + oy * oy + oz * oz);
                    assert(dist as int <= 0x400_0000_0000) by (nonlinear_arith)
                        requires
                            0 <= dist as int,
                            (dist as int) * (dist as int) <= 3 * 0x200_0000_0000
                                * 0x200_0000_0000,
                    ;
                }
                let dv: Vec3 = match off.normalized() {
                    Some(u) => u,
                    None => Vec3::zero(),
                };
                let hv: Vec3 = match g.heading.normalized() {
                    Some(u) => u,
                    None => Vec3::zero(),
                };
                proof {
                    assert(dv@ == dir_to(b, groups@[j as int]));
                    assert(hv@ == heading_dir(groups@[j as int]));
                    assert(dist as int == dist_to(b, groups@[j as int]));
                    assert(groups@.take(j + 1).drop_last() =~= groups@.take(j as int));
                    assert(groups@.take(j + 1).last() == groups@[j as int]);
                }
                sd = sd.plus(&dv);
                sh = sh.plus(&hv);
                sdist = sdist + (dist as i64);
                j = j + 1;
            }
            proof {
                assert(groups@.take(ng as int) =~= groups@);
            }
            let ni: i64 = ng as i64;
            let mean_dir: Vec3 = sd.div_by(ni);
            let mean_hd: Vec3 = sh.div_by(ni);
            let mean_dist: i64 = div_trunc(sdist, ni);
            proof {
                lemma_v_tdiv_bound(sd@, ni as int, 65536);
                lemma_v_tdiv_bound(sh@, ni as int, 65536);
                crate::math::lemma_tdiv_bound(sdist as int, ni as int, 0x400_0000_0000);
            }
            let strength: i64 = clamp_i64(mp.dist_thresh - mean_dist, 0, SCALE);
            let avoid: Vec3 = b.heading.cross(&mean_dir).div_by(SCALE);
            proof {
                lemma_cross_bounded(b.heading@, mean_dir@, 65536, 65536);
                lemma_v_tdiv_bound(v_cross(b.heading@, mean_dir@), SCALE as int, 2int * 65536);
                assert(avoid@ == cross_fp(b.heading@, mean_dir@));
            }
            let shift: Vec3 = mean_dir.minus(&avoid).scale_fp(strength);
            proof {
                lemma_v_scale_fp_bound(
                    v_sub(mean_dir@, avoid@),
                    strength as int,
                    0x4_0000,
                    65536,
                    0x4_0000,
                );
            }
            let blend: Vec3 = avoid.plus(&shift);
            let sv: Vec3 = blend.scale_fp(mp.steer);
            let av: Vec3 = mean_hd.scale_fp(mp.parallel);
            proof {
                lemma_v_scale_fp_bound(blend@, mp.steer as int, 0x8_0000, 0x10_0000, 0x8_0000_0000);
                lemma_v_scale_fp_bound(
                    mean_hd@,
                    mp.parallel as int,
                    65536,
                    0x10_0000,
                    0x10_0000,
                );
                assert(blend@ == lerp_fp(cross_fp(b.heading@, mean_dir@), mean_dir@,
                    strength as int));
            }
            let cand: Vec3 = b.heading.plus(&sv).plus(&av);
            match cand.normalized() {
                Some(u) => u,
                None => b.heading,
            }
        };
        let delta: Vec3 = new_heading.scale_fp(mp.speed);
        proof {
            assert(new_heading@ == new_heading_of(b, groups@, *mp));
            lemma_v_scale_fp_bound(new_heading@, mp.speed as int, 65536, 0x10_0000, 0x10_0000);
        }
        let np: Vec3 = b.pos.plus(&delta);
        boids[i] = Boid { pos: np, level: b.level, heading: new_heading, mask: b.mask };
        i = i + 1;
    }
}

} // verus!
