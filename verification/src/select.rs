use vstd::prelude::*;
use vstd::arithmetic::power2::pow2;
use vstd::bits::{lemma_u32_pow2_no_overflow, lemma_u32_shl_is_mul};
use crate::accum::{a_zero, h_zero, AccV, Accumulator, HalfV};
use crate::boid::Boid;
use crate::vec3::{v_bounded, v_cross, v_dot, v_sub, v_zero, Vec3, V3};
use crate::SCALE;

verus! {

/// The arguments of one Selector pass: the parent node's tag
/// `(level, mask)`, the parent's centroid as a point of the separating
/// plane, and the parent's stored mean heading, from which the plane
/// normal is derived.
#[derive(Clone, Copy, PartialEq, Eq, Structural, Debug)]
pub struct SelectParams {
    pub plane_pos: Vec3,
    pub mask: u32,
    pub plane_normal: Vec3,
    pub level: u32,
}

/// The accumulator half seeded with one agent's own state.
pub open spec fn seeded(b: Boid) -> HalfV {
    HalfV { pos: b.pos@, heading: b.heading@, count: 1 }
}

/// The arbitrary axis used to derive a plane normal orthogonal to the
/// mean heading: Y, unless the heading is parallel to Y, then Z, then X.
pub open spec fn split_axis(h: V3) -> V3 {
    if !(h.x == 0 && h.z == 0) {
        V3 { x: 0, y: SCALE as int, z: 0 }
    } else if !(h.x == 0 && h.y == 0) {
        V3 { x: 0, y: 0, z: SCALE as int }
    } else {
        V3 { x: SCALE as int, y: 0, z: 0 }
    }
}

/// The separating plane's normal: the stored mean heading crossed with
/// the fallback axis.
pub open spec fn plane_normal_of(h: V3) -> V3 {
    v_cross(h, split_axis(h))
}

/// Which side of the plane a position falls on; a point exactly on the
/// plane counts as the `false` (right) side.
pub open spec fn side_of(pos: V3, plane_pos: V3, plane_heading: V3) -> bool {
    v_dot(v_sub(pos, plane_pos), plane_normal_of(plane_heading)) > 0
}

pub open spec fn boid_matches(b: Boid, p: SelectParams) -> bool {
    b.level == p.level && b.mask == p.mask
}

pub open spec fn boid_side(b: Boid, p: SelectParams) -> bool {
    side_of(b.pos@, p.plane_pos@, p.plane_normal@)
}

/// What one Selector pass does to one agent: a non-matching agent is
/// untouched; a matching one descends a level and records its side in
/// bit `level` of its mask.
pub open spec fn select_boid(b: Boid, p: SelectParams) -> Boid {
    if boid_matches(b, p) {
        Boid {
            pos: b.pos,
            heading: b.heading,
            level: (p.level + 1) as u32,
            mask: ((b.mask + if boid_side(b, p) {
                pow2(p.level as nat) as int
            } else {
                0int
            }) as u32),
        }
    } else {
        b
    }
}

/// What one Selector pass leaves in one agent's accumulator slot: zero
/// for a non-matching agent, the agent's own state seeded into the left
/// (side true) or right (side false) half otherwise.
pub open spec fn select_slot(b: Boid, p: SelectParams) -> AccV {
    if boid_matches(b, p) {
        if boid_side(b, p) {
            AccV { left: seeded(b), right: h_zero() }
        } else {
            AccV { left: h_zero(), right: seeded(b) }
        }
    } else {
        a_zero()
    }
}

/// Setting a bit above all the bits of `m` is adding it.
proof fn lemma_or_bit(m: u32, l: u32)
    requires
        l < 32,
        m < (1u32 << l),
    ensures
        (m | (1u32 << l)) == m + (1u32 << l),
{
    assert((m | (1u32 << l)) == m + (1u32 << l)) by (bit_vector)
        requires
            l < 32,
            m < (1u32 << l),
    ;
}

/// Picks the split axis for a stored mean heading.
fn choose_axis(h: &Vec3) -> (r: Vec3)
    ensures
        r@ == split_axis(h@),
{
    if !(h.x == 0 && h.z == 0) {
        Vec3 { x: 0, y: SCALE, z: 0 }
    } else if !(h.x == 0 && h.y == 0) {
        Vec3 { x: 0, y: 0, z: SCALE }
    } else {
        Vec3 { x: SCALE, y: 0, z: 0 }
    }
}

/// One Selector pass over the whole population: every slot is reset,
/// every agent whose tag equals the parent's is assigned to a child by
/// the separating plane and seeds its slot's matching half.
pub fn select_pass(boids: &mut Vec<Boid>, acc: &mut Vec<Accumulator>, params: &SelectParams)
    requires
        old(boids)@.len() == old(acc)@.len(),
        old(boids)@.len() <= 0x10_0000,
        params.level < 30,
        (params.mask as int) < pow2(params.level as nat),
        v_bounded(params.plane_pos@, 0x4000_0000_0000),
        v_bounded(params.plane_normal@, 0x4000_0000),
        forall|i: int|
            0 <= i < old(boids)@.len() ==> v_bounded(
                #[trigger] old(boids)@[i].pos@,
                0x4000_0000_0000,
            ),
    ensures
        final(boids)@.len() == old(boids)@.len(),
        final(acc)@.len() == old(acc)@.len(),
        forall|i: int|
            0 <= i < old(boids)@.len() ==> #[trigger] final(boids)@[i] == select_boid(
                old(boids)@[i],
                *params,
            ),
        forall|i: int|
            0 <= i < old(boids)@.len() ==> #[trigger] final(acc)@[i]@ == select_slot(
                old(boids)@[i],
                *params,
            ),
{
    let n: usize = boids.len();
    let axis: Vec3 = choose_axis(&params.plane_normal);
    let normal: Vec3 = params.plane_normal.cross(&axis);
    let bit: u32 = 1u32 << params.level;
    proof {
        lemma_u32_pow2_no_overflow(params.level as nat);
        lemma_u32_shl_is_mul(1u32, params.level);
        assert(bit == pow2(params.level as nat));
        assert(v_bounded(split_axis(params.plane_normal@), SCALE as int));
        assert(normal@ == plane_normal_of(params.plane_normal@));
        crate::vec3::lemma_cross_bounded(
            params.plane_normal@,
            split_axis(params.plane_normal@),
            0x4000_0000,
            SCALE as int,
        );
    }
    let mut i: usize = 0;
    while i < n
        invariant
            n == old(boids)@.len(),
            boids@.len() == n,
            acc@.len() == n,
            0 <= i <= n,
            params.level < 30,
            (params.mask as int) < pow2(params.level as nat),
            bit == pow2(params.level as nat),
            bit == (1u32 << params.level),
            normal@ == plane_normal_of(params.plane_normal@),
            v_bounded(params.plane_pos@, 0x4000_0000_0000),
            v_bounded(normal@, 0x4000_0000_0000_0000),
            forall|k: int|
                0 <= k < n ==> v_bounded(#[trigger] old(boids)@[k].pos@, 0x4000_0000_0000),
            forall|k: int| i <= k < n ==> #[trigger] boids@[k] == old(boids)@[k],
            forall|k: int|
                0 <= k < i ==> #[trigger] boids@[k] == select_boid(old(boids)@[k], *params),
            forall|k: int|
                0 <= k < i ==> #[trigger] acc@[k]@ == select_slot(old(boids)@[k], *params),
        decreases n - i,
    {
        let b: Boid = boids[i];
        let slot: Accumulator = crate::accum::zero_slot();
        acc[i] = slot;
        if b.level == params.level && b.mask == params.mask {
            let d: i128 = b.pos.minus(&params.plane_pos).dot_wide(&normal);
            let side: bool = d > 0;
            proof {
                assert(side == boid_side(b, *params));
                if side {
                    lemma_or_bit(b.mask, params.level);
                }
            }
            let new_mask: u32 = if side {
                b.mask | bit
            } else {
                b.mask
            };
            let nb: Boid = Boid {
                pos: b.pos,
                heading: b.heading,
                level: params.level + 1,
                mask: new_mask,
            };
            boids[i] = nb;
            let half: crate::accum::AccumulatorHalf = crate::accum::AccumulatorHalf {
                pos: b.pos,
                count: 1,
                heading: b.heading,
            };
            if side {
                acc[i] = Accumulator { left: half, right: crate::accum::zero_half() };
            } else {
                acc[i] = Accumulator { left: crate::accum::zero_half(), right: half };
            }
        }
        i = i + 1;
    }
}

} // verus!
