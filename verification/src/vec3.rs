use vstd::prelude::*;
use crate::math::{div_trunc, is_sqrt_of, isqrt, lemma_tdiv_bound, tdiv};
use crate::SCALE;

verus! {

/// A three-component vector of fixed-point coordinates: `SCALE` stands
/// for one unit of length.
#[derive(Clone, Copy, PartialEq, Eq, Structural, Debug)]
pub struct Vec3 {
    pub x: i64,
    pub y: i64,
    pub z: i64,
}

/// The mathematical value of a `Vec3`.
pub ghost struct V3 {
    pub x: int,
    pub y: int,
    pub z: int,
}

impl View for Vec3 {
    type V = V3;

    open spec fn view(&self) -> V3 {
        V3 { x: self.x as int, y: self.y as int, z: self.z as int }
    }
}

pub open spec fn v_zero() -> V3 {
    V3 { x: 0, y: 0, z: 0 }
}

pub open spec fn v_add(a: V3, b: V3) -> V3 {
    V3 { x: a.x + b.x, y: a.y + b.y, z: a.z + b.z }
}

pub open spec fn v_sub(a: V3, b: V3) -> V3 {
    V3 { x: a.x - b.x, y: a.y - b.y, z: a.z - b.z }
}

pub open spec fn v_dot(a: V3, b: V3) -> int {
    a.x * b.x + a.y * b.y + a.z * b.z
}

pub open spec fn v_cross(a: V3, b: V3) -> V3 {
    V3 {
        x: a.y * b.z - a.z * b.y,
        y: a.z * b.x - a.x * b.z,
        z: a.x * b.y - a.y * b.x,
    }
}

/// Componentwise division toward zero by a positive divisor.
pub open spec fn v_tdiv(a: V3, d: int) -> V3
    recommends
        d > 0,
{
    V3 { x: tdiv(a.x, d), y: tdiv(a.y, d), z: tdiv(a.z, d) }
}

/// Fixed-point scaling: each component is multiplied by `k` units of
/// `SCALE`, that is `component * k / SCALE`, rounding toward zero.
pub open spec fn v_scale_fp(a: V3, k: int) -> V3 {
    V3 {
        x: tdiv(a.x * k, SCALE as int),
        y: tdiv(a.y * k, SCALE as int),
        z: tdiv(a.z * k, SCALE as int),
    }
}

/// Every component lies in `[-b, b]`.
pub open spec fn v_bounded(a: V3, b: int) -> bool {
    -b <= a.x <= b && -b <= a.y <= b && -b <= a.z <= b
}

/// The positive square root, as a spec value; meaningful where a root
/// exists, which `lemma_sqrt_unique` pins down.
pub open spec fn sqrt_of(n: int) -> int {
    choose|r: int| is_sqrt_of(n, r)
}

pub proof fn lemma_sqrt_unique(n: int, r: int)
    requires
        is_sqrt_of(n, r),
    ensures
        sqrt_of(n) == r,
{
    assert(is_sqrt_of(n, sqrt_of(n)));
    let s = sqrt_of(n);
    assert(s == r) by (nonlinear_arith)
        requires
            0 <= r,
            r * r <= n,
            n < (r + 1) * (r + 1),
            0 <= s,
            s * s <= n,
            n < (s + 1) * (s + 1),
    ;
}

/// The fixed-point unit vector along `v`: each component is
/// `component * SCALE / |v|`, with `|v|` the integer square root of the
/// squared length. Meaningful only for `v != 0`.
pub open spec fn v_normalized(v: V3) -> V3 {
    v_tdiv(V3 { x: v.x * SCALE as int, y: v.y * SCALE as int, z: v.z * SCALE as int },
        sqrt_of(v_dot(v, v)))
}

proof fn lemma_mul_bound(x: int, y: int, bx: int, by: int)
    requires
        -bx <= x <= bx,
        -by <= y <= by,
        0 <= bx,
        0 <= by,
    ensures
        -(bx * by) <= x * y <= bx * by,
{
    assert(-(bx * by) <= x * y <= bx * by) by (nonlinear_arith)
        requires
            -bx <= x <= bx,
            -by <= y <= by,
            0 <= bx,
            0 <= by,
    ;
}

/// Componentwise division keeps the quotient within `k` when the vector
/// stays within `k` multiples of the divisor.
pub proof fn lemma_v_tdiv_bound(a: V3, d: int, k: int)
    requires
        d > 0,
        0 <= k,
        v_bounded(a, k * d),
    ensures
        v_bounded(v_tdiv(a, d), k),
{
    lemma_tdiv_bound(a.x, d, k);
    lemma_tdiv_bound(a.y, d, k);
    lemma_tdiv_bound(a.z, d, k);
}

/// Fixed-point scaling of a bounded vector by a bounded factor stays
/// within any `bound` that covers the product.
pub proof fn lemma_v_scale_fp_bound(a: V3, k: int, ba: int, bk: int, bound: int)
    requires
        0 <= ba,
        0 <= bk,
        0 <= bound,
        -bk <= k <= bk,
        v_bounded(a, ba),
        ba * bk <= bound * (SCALE as int),
    ensures
        v_bounded(v_scale_fp(a, k), bound),
{
    lemma_mul_bound(a.x, k, ba, bk);
    lemma_mul_bound(a.y, k, ba, bk);
    lemma_mul_bound(a.z, k, ba, bk);
    lemma_tdiv_bound(a.x * k, SCALE as int, bound);
    lemma_tdiv_bound(a.y * k, SCALE as int, bound);
    lemma_tdiv_bound(a.z * k, SCALE as int, bound);
}

/// A cross product of bounded vectors is bounded by twice the product
/// of the bounds.
pub proof fn lemma_cross_bounded(a: V3, b: V3, ba: int, bb: int)
    requires
        0 <= ba,
        0 <= bb,
        v_bounded(a, ba),
        v_bounded(b, bb),
    ensures
        v_bounded(v_cross(a, b), 2 * ba * bb),
{
    lemma_mul_bound(a.x, b.x, ba, bb);
    lemma_mul_bound(a.x, b.y, ba, bb);
    lemma_mul_bound(a.x, b.z, ba, bb);
    lemma_mul_bound(a.y, b.x, ba, bb);
    lemma_mul_bound(a.y, b.y, ba, bb);
    lemma_mul_bound(a.y, b.z, ba, bb);
    lemma_mul_bound(a.z, b.x, ba, bb);
    lemma_mul_bound(a.z, b.y, ba, bb);
    lemma_mul_bound(a.z, b.z, ba, bb);
    assert(2 * ba * bb == (ba * bb) + (ba * bb)) by (nonlinear_arith);
}

impl Vec3 {
    pub fn zero() -> (r: Vec3)
        ensures
            r@ == v_zero(),
    {
        Vec3 { x: 0, y: 0, z: 0 }
    }

    pub fn plus(&self, o: &Vec3) -> (r: Vec3)
        requires
            i64::MIN <= self@.x + o@.x <= i64::MAX,
            i64::MIN <= self@.y + o@.y <= i64::MAX,
            i64::MIN <= self@.z + o@.z <= i64::MAX,
        ensures
            r@ == v_add(self@, o@),
    {
        Vec3 { x: self.x + o.x, y: self.y + o.y, z: self.z + o.z }
    }

    pub fn minus(&self, o: &Vec3) -> (r: Vec3)
        requires
            i64::MIN <= self@.x - o@.x <= i64::MAX,
            i64::MIN <= self@.y - o@.y <= i64::MAX,
            i64::MIN <= self@.z - o@.z <= i64::MAX,
        ensures
            r@ == v_sub(self@, o@),
    {
        Vec3 { x: self.x - o.x, y: self.y - o.y, z: self.z - o.z }
    }

    /// Dot product in a wide intermediate, exact for all arguments within
    /// `2^62` per component.
    pub fn dot_wide(&self, o: &Vec3) -> (r: i128)
        requires
            v_bounded(self@, 0x4000_0000_0000_0000),
            v_bounded(o@, 0x4000_0000_0000_0000),
        ensures
            r == v_dot(self@, o@),
    {
        proof {
            lemma_mul_bound(self@.x, o@.x, 0x4000_0000_0000_0000, 0x4000_0000_0000_0000);
            lemma_mul_bound(self@.y, o@.y, 0x4000_0000_0000_0000, 0x4000_0000_0000_0000);
            lemma_mul_bound(self@.z, o@.z, 0x4000_0000_0000_0000, 0x4000_0000_0000_0000);
        }
        (self.x as i128) * (o.x as i128) + (self.y as i128) * (o.y as i128) + (self.z as i128)
            * (o.z as i128)
    }

    pub fn cross(&self, o: &Vec3) -> (r: Vec3)
        requires
            v_bounded(self@, 0x4000_0000),
            v_bounded(o@, 0x4000_0000),
        ensures
            r@ == v_cross(self@, o@),
    {
        proof {
            lemma_mul_bound(self@.x, o@.x, 0x4000_0000, 0x4000_0000);
            lemma_mul_bound(self@.x, o@.y, 0x4000_0000, 0x4000_0000);
            lemma_mul_bound(self@.x, o@.z, 0x4000_0000, 0x4000_0000);
            lemma_mul_bound(self@.y, o@.x, 0x4000_0000, 0x4000_0000);
            lemma_mul_bound(self@.y, o@.z, 0x4000_0000, 0x4000_0000);
            lemma_mul_bound(self@.z, o@.x, 0x4000_0000, 0x4000_0000);
            lemma_mul_bound(self@.z, o@.y, 0x4000_0000, 0x4000_0000);
        }
        Vec3 {
            x: self.y * o.z - self.z * o.y,
            y: self.z * o.x - self.x * o.z,
            z: self.x * o.y - self.y * o.x,
        }
    }

    /// Componentwise division toward zero by a positive count.
    pub fn div_by(&self, d: i64) -> (r: Vec3)
        requires
            d > 0,
        ensures
            r@ == v_tdiv(self@, d as int),
    {
        Vec3 { x: div_trunc(self.x, d), y: div_trunc(self.y, d), z: div_trunc(self.z, d) }
    }

    /// Fixed-point scaling by `k` (`k == SCALE` means no change but for
    /// rounding).
    pub fn scale_fp(&self, k: i64) -> (r: Vec3)
        requires
            v_bounded(self@, 0x100_0000_0000),
            -0x40_0000 <= k <= 0x40_0000,
        ensures
            r@ == v_scale_fp(self@, k as int),
    {
        proof {
            lemma_mul_bound(self@.x, k as int, 0x100_0000_0000, 0x40_0000);
            lemma_mul_bound(self@.y, k as int, 0x100_0000_0000, 0x40_0000);
            lemma_mul_bound(self@.z, k as int, 0x100_0000_0000, 0x40_0000);
        }
        Vec3 {
            x: div_trunc(self.x * k, SCALE),
            y: div_trunc(self.y * k, SCALE),
            z: div_trunc(self.z * k, SCALE),
        }
    }

    /// The fixed-point unit vector along `self`, or `None` for the zero
    /// vector, whose direction is undefined.
    pub fn normalized(&self) -> (r: Option<Vec3>)
        requires
            v_bounded(self@, 0x4000_0000_0000),
        ensures
            self@ == v_zero() ==> r is None,
            self@ != v_zero() ==> (r matches Some(u) && u@ == v_normalized(self@) && v_bounded(
                u@,
                SCALE as int,
            )),
    {
        let n2: i128 = self.dot_wide(self);
        proof {
            assert(v_dot(self@, self@) >= 0) by (nonlinear_arith);
            assert(self@ != v_zero() ==> v_dot(self@, self@) >= 1) by (nonlinear_arith);
        }
        let len: u64 = isqrt(n2 as u128);
        if len == 0 {
            proof {
                assert(v_dot(self@, self@) == 0 ==> self@ == v_zero()) by (nonlinear_arith);
            }
            None
        } else {
            proof {
                if self@ == v_zero() {
                    assert(v_dot(self@, self@) == 0);
                    assert((len as int) * (len as int) >= 1) by (nonlinear_arith)
                        requires
                            len as int >= 1,
                    ;
                }
                lemma_sqrt_unique(v_dot(self@, self@), len as int);
                assert(self@.x * self@.x <= v_dot(self@, self@)) by (nonlinear_arith);
                assert(self@.y * self@.y <= v_dot(self@, self@)) by (nonlinear_arith);
                assert(self@.z * self@.z <= v_dot(self@, self@)) by (nonlinear_arith);
                assert(-(len as int) <= self@.x <= len as int) by (nonlinear_arith)
                    requires
                        self@.x * self@.x <= v_dot(self@, self@),
                        is_sqrt_of(v_dot(self@, self@), len as int),
                ;
                assert(-(len as int) <= self@.y <= len as int) by (nonlinear_arith)
                    requires
                        self@.y * self@.y <= v_dot(self@, self@),
                        is_sqrt_of(v_dot(self@, self@), len as int),
                ;
                assert(-(len as int) <= self@.z <= len as int) by (nonlinear_arith)
                    requires
                        self@.z * self@.z <= v_dot(self@, self@),
                        is_sqrt_of(v_dot(self@, self@), len as int),
                ;
                lemma_mul_bound(self@.x, SCALE as int, len as int, SCALE as int);
                lemma_mul_bound(self@.y, SCALE as int, len as int, SCALE as int);
                lemma_mul_bound(self@.z, SCALE as int, len as int, SCALE as int);
                lemma_tdiv_bound(self@.x * SCALE as int, len as int, SCALE as int);
                lemma_tdiv_bound(self@.y * SCALE as int, len as int, SCALE as int);
                lemma_tdiv_bound(self@.z * SCALE as int, len as int, SCALE as int);
                lemma_mul_bound(self@.x, SCALE as int, 0x4000_0000_0000, 0x1_0000);
                lemma_mul_bound(self@.y, SCALE as int, 0x4000_0000_0000, 0x1_0000);
                lemma_mul_bound(self@.z, SCALE as int, 0x4000_0000_0000, 0x1_0000);
                let gx = self@.x;
                let gy = self@.y;
                let gz = self@.z;
                assert(gx * gx + gy * gy + gz * gz <= 3 * 0x4000_0000_0000 * 0x4000_0000_0000)
                    by (nonlinear_arith)
                    requires
                        -0x4000_0000_0000 <= gx <= 0x4000_0000_0000,
                        -0x4000_0000_0000 <= gy <= 0x4000_0000_0000,
                        -0x4000_0000_0000 <= gz <= 0x4000_0000_0000,
                ;
                assert(v_dot(self@, self@) == gx * gx + gy * gy + gz * gz);
                assert((len as int) * (len as int) <= v_dot(self@, self@));
                assert(len as int <= 0x8000_0000_0000) by (nonlinear_arith)
                    requires
                        0 <= len as int,
                        (len as int) * (len as int) <= 3 * 0x4000_0000_0000 * 0x4000_0000_0000,
                ;
            }
            let li: i64 = len as i64;
            Some(
                Vec3 {
                    x: div_trunc(self.x * SCALE, li),
                    y: div_trunc(self.y * SCALE, li),
                    z: div_trunc(self.z * SCALE, li),
                },
            )
        }
    }
}

} // verus!
