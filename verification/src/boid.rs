use vstd::prelude::*;
use vstd::arithmetic::power2::pow2;
use crate::vec3::{v_bounded, Vec3};

verus! {

/// One simulated agent: a position, a heading, and the partition tag
/// `(level, mask)` recording the path it has taken through the tree so
/// far — bit `i` of `mask` is the side of the level-`i` separating plane.
#[derive(Clone, Copy, PartialEq, Eq, Structural, Debug)]
pub struct Boid {
    pub pos: Vec3,
    pub level: u32,
    pub heading: Vec3,
    pub mask: u32,
}

/// The tag is consistent: only the low `level` bits of `mask` are used.
pub open spec fn tag_valid(b: Boid) -> bool {
    (b.mask as int) < pow2(b.level as nat)
}

/// The coordinate bounds every agent of a well-formed simulation obeys:
/// positions within `bound`, headings within one fixed-point unit.
pub open spec fn boid_bounded(b: Boid, bound: int) -> bool {
    v_bounded(b.pos@, bound) && v_bounded(b.heading@, crate::SCALE as int)
}

} // verus!
