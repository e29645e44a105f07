use vstd::prelude::*;
use crate::boid::Boid;
use crate::vec3::{v_bounded, v_normalized, v_zero, Vec3, V3};
use crate::SCALE;

verus! {

#[verifier::external_type_specification]
#[verifier::external_body]
pub struct ExThreadRng(rand::rngs::ThreadRng);

/// Relies on rand::thread_rng: a handle to the thread-local generator.
/// Nothing is assumed of the values it will produce. The call can abort
/// if the operating system's entropy source fails at a thread's first
/// use — an environment failure independent of any input.
#[verifier::external_body]
fn fresh_rng() -> rand::rngs::ThreadRng {
    rand::thread_rng()
}

/// Relies on rand::Rng::gen_range on a half-open integer range: the
/// sample lies in `[lo, hi)`, uniformly. The call panics on an empty
/// range, which the precondition rules out; nothing more is assumed of
/// which value comes back.
#[verifier::external_body]
fn sample_range(rng: &mut rand::rngs::ThreadRng, lo: i64, hi: i64) -> (r: i64)
    requires
        lo < hi,
    ensures
        lo <= r < hi,
{
    rand::Rng::gen_range(rng, lo..hi)
}

/// A heading as the population starts with it: the fixed-point
/// normalization of some nonzero draw from the unit cube, or the `+Z`
/// axis that stands in for the zero draw, whose direction is
/// undefined.
pub open spec fn unit_heading(h: V3) -> bool {
    ||| h == (V3 { x: 0, y: 0, z: SCALE as int })
    ||| exists|w: V3|
        w != v_zero() && v_bounded(w, SCALE as int) && h == #[trigger] v_normalized(w)
}

/// Creates `n` agents at uniformly random positions inside the cube of
/// half-side `scale`, with unit headings — a random direction drawn
/// from the unit cube and normalized, `+Z` standing in for the zero
/// sample, whose direction is undefined — and zeroed tags.
pub fn random_boids(n: usize, scale: i64) -> (v: Vec<Boid>)
    requires
        n <= 0x10_0000,
        1 <= scale <= 0x100_0000_0000,
    ensures
        v@.len() == n,
        forall|i: int|
            0 <= i < n ==> {
                let b = #[trigger] v@[i];
                &&& b.level == 0
                &&& b.mask == 0
                &&& v_bounded(b.pos@, scale as int)
                &&& v_bounded(b.heading@, SCALE as int)
                &&& unit_heading(b.heading@)
            },
{
    let mut rng = fresh_rng();
    let mut out: Vec<Boid> = Vec::new();
    let mut i: usize = 0;
    while i < n
        invariant
            0 <= i <= n,
            n <= 0x10_0000,
            1 <= scale <= 0x100_0000_0000,
            out@.len() == i,
            forall|k: int|
                0 <= k < i ==> {
                    let b = #[trigger] out@[k];
                    &&& b.level == 0
                    &&& b.mask == 0
                    &&& v_bounded(b.pos@, scale as int)
                    &&& v_bounded(b.heading@, SCALE as int)
                    &&& unit_heading(b.heading@)
                },
        decreases n - i,
    {
        let px: i64 = sample_range(&mut rng, -scale, scale);
        let py: i64 = sample_range(&mut rng, -scale, scale);
        let pz: i64 = sample_range(&mut rng, -scale, scale);
        let hx: i64 = sample_range(&mut rng, -SCALE, SCALE);
        let hy: i64 = sample_range(&mut rng, -SCALE, SCALE);
        let hz: i64 = sample_range(&mut rng, -SCALE, SCALE);
        let raw: Vec3 = Vec3 { x: hx, y: hy, z: hz };
        let heading: Vec3 = match raw.normalized() {
            Some(u) => u,
            None => Vec3 { x: 0, y: 0, z: SCALE },
        };
        proof {
            if raw@ != v_zero() {
                assert(heading@ == v_normalized(raw@));
                assert(unit_heading(heading@));
            }
        }
        out.push(Boid { pos: Vec3 { x: px, y: py, z: pz }, level: 0, heading, mask: 0 });
        i = i + 1;
    }
    out
}

} // verus!
