use vstd::prelude::*;
use vstd::arithmetic::div_mod::{
    lemma_fundamental_div_mod, lemma_mod_add_multiples_vanish, lemma_mod_multiples_basic,
};
use crate::math::tdiv;
use crate::vec3::{v_add, v_bounded, v_tdiv, v_zero, Vec3, V3};

verus! {

/// One half of an accumulator slot: partial sums of positions and
/// headings, and how many agents went into them.
#[derive(Clone, Copy, PartialEq, Eq, Structural, Debug)]
pub struct AccumulatorHalf {
    pub pos: Vec3,
    pub count: u32,
    pub heading: Vec3,
}

/// One accumulator slot per agent, holding the two halves of the split
/// being computed.
#[derive(Clone, Copy, PartialEq, Eq, Structural, Debug)]
pub struct Accumulator {
    pub left: AccumulatorHalf,
    pub right: AccumulatorHalf,
}

/// Centroid and mean heading of the agents in one tree node, with their
/// number.
#[derive(Clone, Copy, PartialEq, Eq, Structural, Debug)]
pub struct Group {
    pub center: Vec3,
    pub heading: Vec3,
    pub count: u32,
}

/// The mathematical value of an accumulator half.
pub ghost struct HalfV {
    pub pos: V3,
    pub heading: V3,
    pub count: int,
}

/// The mathematical value of an accumulator slot.
pub ghost struct AccV {
    pub left: HalfV,
    pub right: HalfV,
}

/// The mathematical value of a group.
pub ghost struct GroupV {
    pub center: V3,
    pub heading: V3,
    pub count: int,
}

impl View for AccumulatorHalf {
    type V = HalfV;

    open spec fn view(&self) -> HalfV {
        HalfV { pos: self.pos@, heading: self.heading@, count: self.count as int }
    }
}

impl View for Accumulator {
    type V = AccV;

    open spec fn view(&self) -> AccV {
        AccV { left: self.left@, right: self.right@ }
    }
}

impl View for Group {
    type V = GroupV;

    open spec fn view(&self) -> GroupV {
        GroupV { center: self.center@, heading: self.heading@, count: self.count as int }
    }
}

pub open spec fn h_zero() -> HalfV {
    HalfV { pos: v_zero(), heading: v_zero(), count: 0 }
}

pub open spec fn h_add(a: HalfV, b: HalfV) -> HalfV {
    HalfV {
        pos: v_add(a.pos, b.pos),
        heading: v_add(a.heading, b.heading),
        count: a.count + b.count,
    }
}

pub open spec fn a_zero() -> AccV {
    AccV { left: h_zero(), right: h_zero() }
}

pub open spec fn a_add(a: AccV, b: AccV) -> AccV {
    AccV { left: h_add(a.left, b.left), right: h_add(a.right, b.right) }
}

/// The slot-wise sum of `s[from .. to]`, both halves at once.
pub open spec fn range_sum(s: Seq<Accumulator>, from: int, to: int) -> AccV
    decreases to - from,
{
    if from >= to {
        a_zero()
    } else {
        a_add(range_sum(s, from, to - 1), s[to - 1]@)
    }
}

/// Per-slot bound that keeps every partial sum of up to `2^20` slots
/// within the machine integers.
pub open spec fn slot_bounded(a: AccV) -> bool {
    &&& v_bounded(a.left.pos, 0x100_0000_0000)
    &&& v_bounded(a.left.heading, 0x100_0000_0000)
    &&& 0 <= a.left.count <= 0x800
    &&& v_bounded(a.right.pos, 0x100_0000_0000)
    &&& v_bounded(a.right.heading, 0x100_0000_0000)
    &&& 0 <= a.right.count <= 0x800
}

pub open spec fn half_in_range(h: HalfV, k: int) -> bool {
    &&& v_bounded(h.pos, k * 0x100_0000_0000)
    &&& v_bounded(h.heading, k * 0x100_0000_0000)
    &&& 0 <= h.count <= k * 0x800
}

pub open spec fn sum_in_range(a: AccV, k: int) -> bool {
    half_in_range(a.left, k) && half_in_range(a.right, k)
}

pub proof fn lemma_a_add_zero(a: AccV)
    ensures
        a_add(a_zero(), a) == a,
{
    assert(v_add(v_zero(), a.left.pos) == a.left.pos);
    assert(v_add(v_zero(), a.left.heading) == a.left.heading);
    assert(v_add(v_zero(), a.right.pos) == a.right.pos);
    assert(v_add(v_zero(), a.right.heading) == a.right.heading);
    assert(h_add(h_zero(), a.left) == a.left);
    assert(h_add(h_zero(), a.right) == a.right);
}

/// A multiple of `2 * s` is a multiple of `s`.
proof fn lemma_mod_halves(j: int, s: int)
    requires
        s >= 1,
        j % (2 * s) == 0,
    ensures
        j % s == 0,
{
    lemma_fundamental_div_mod(j, 2 * s);
    let q = j / (2 * s);
    assert(j == (2 * q) * s) by (nonlinear_arith)
        requires
            j == 2 * s * q + j % (2 * s),
            j % (2 * s) == 0,
    ;
    lemma_mod_multiples_basic(2 * q, s);
}

/// Distinct multiples of `m` lie at least `m` apart.
proof fn lemma_mod_gap(a: int, b: int, m: int)
    requires
        m >= 1,
        a % m == 0,
        b % m == 0,
        b > a,
    ensures
        b >= a + m,
{
    lemma_fundamental_div_mod(a, m);
    lemma_fundamental_div_mod(b, m);
    assert(b >= a + m) by (nonlinear_arith)
        requires
            m >= 1,
            a == m * (a / m),
            b == m * (b / m),
            b > a,
    ;
}

pub proof fn lemma_range_sum_concat(s: Seq<Accumulator>, a: int, b: int, c: int)
    requires
        a <= b <= c,
    ensures
        range_sum(s, a, c) == a_add(range_sum(s, a, b), range_sum(s, b, c)),
    decreases c - b,
{
    if b == c {
        assert(range_sum(s, b, c) == a_zero());
        assert(a_add(range_sum(s, a, b), a_zero()) == range_sum(s, a, b));
    } else {
        lemma_range_sum_concat(s, a, b, c - 1);
    }
}

pub proof fn lemma_range_sum_bounded(s: Seq<Accumulator>, from: int, to: int)
    requires
        from <= to,
        forall|i: int| from <= i < to ==> slot_bounded(#[trigger] s[i]@),
    ensures
        sum_in_range(range_sum(s, from, to), to - from),
    decreases to - from,
{
    if from == to {
    } else {
        lemma_range_sum_bounded(s, from, to - 1);
    }
}

/// Elementwise merge of two accumulator slots, the reduction's single
/// combining step.
pub fn merge(a: &Accumulator, b: &Accumulator) -> (r: Accumulator)
    requires
        sum_in_range(a_add(a@, b@), 0x10_0000),
    ensures
        r@ == a_add(a@, b@),
{
    Accumulator {
        left: AccumulatorHalf {
            pos: a.left.pos.plus(&b.left.pos),
            count: a.left.count + b.left.count,
            heading: a.left.heading.plus(&b.left.heading),
        },
        right: AccumulatorHalf {
            pos: a.right.pos.plus(&b.right.pos),
            count: a.right.count + b.right.count,
            heading: a.right.heading.plus(&b.right.heading),
        },
    }
}

/// Folds the whole buffer into slot 0 by stride-doubling passes: the pass
/// at stride `s` adds slot `i + s` into slot `i` for every `i` that is a
/// multiple of `2 * s`, so that after it slot `i` covers a block of
/// `2 * s` original slots. Every pass completes before the next starts,
/// since each reads what the previous one wrote.
pub fn reduce_in_place(acc: &mut Vec<Accumulator>)
    requires
        1 <= old(acc)@.len() <= 0x10_0000,
        forall|i: int| 0 <= i < old(acc)@.len() ==> slot_bounded(#[trigger] old(acc)@[i]@),
    ensures
        final(acc)@.len() == old(acc)@.len(),
        final(acc)@[0]@ == range_sum(old(acc)@, 0, old(acc)@.len() as int),
{
    let n: usize = acc.len();
    proof {
        assert forall|j: int| 0 <= j < n implies #[trigger] acc@[j]@ == range_sum(acc@, j, j + 1)
        by {
            assert(range_sum(acc@, j, j) == a_zero());
            assert(range_sum(acc@, j, j + 1) == a_add(a_zero(), acc@[j]@));
            lemma_a_add_zero(acc@[j]@);
        }
    }
    let mut stride: usize = 1;
    while stride < n
        invariant
            1 <= stride,
            acc@.len() == n,
            1 <= n <= 0x10_0000,
            forall|i: int| 0 <= i < n ==> slot_bounded(#[trigger] old(acc)@[i]@),
            forall|j: int|
                0 <= j < n && j % (stride as int) == 0 ==> #[trigger] acc@[j]@ == range_sum(
                    old(acc)@,
                    j,
                    if j + stride <= n {
                        j + stride as int
                    } else {
                        n as int
                    },
                ),
        decreases 2 * n - stride,
    {
        let mut idx: usize = 0;
        while idx + stride < n
            invariant
                1 <= stride < n <= 0x10_0000,
                acc@.len() == n,
                idx as int % (2 * stride as int) == 0,
                idx <= n + 2 * stride,
                forall|i: int| 0 <= i < n ==> slot_bounded(#[trigger] old(acc)@[i]@),
                forall|j: int|
                    0 <= j < n && j % (2 * stride as int) == 0 && j < idx ==> #[trigger] acc@[j]@
                        == range_sum(
                        old(acc)@,
                        j,
                        if j + 2 * stride <= n {
                            j + 2 * stride as int
                        } else {
                            n as int
                        },
                    ),
                forall|j: int|
                    0 <= j < n && j % (stride as int) == 0 && j >= idx ==> #[trigger] acc@[j]@
                        == range_sum(
                        old(acc)@,
                        j,
                        if j + stride <= n {
                            j + stride as int
                        } else {
                            n as int
                        },
                    ),
            decreases n + 2 * stride - idx,
        {
            let partner: usize = idx + stride;
            proof {
                let j = idx as int;
                let s = stride as int;
                let hi = if j + 2 * s <= n { j + 2 * s } else { n as int };
                lemma_mod_halves(j, s);
                lemma_mod_add_multiples_vanish(j, s);
                assert((j + s) % s == 0);
                lemma_range_sum_bounded(old(acc)@, j, hi);
                lemma_range_sum_concat(old(acc)@, j, j + s, hi);
            }
            let merged: Accumulator = merge(&acc[idx], &acc[partner]);
            acc[idx] = merged;
            proof {
                let j = idx as int;
                let s = stride as int;
                lemma_mod_add_multiples_vanish(j, 2 * s);
                assert((j + 2 * s) % (2 * s) == 0);
                assert forall|jj: int| #[trigger] (jj % (2 * s)) == 0 && jj > j implies jj >= j
                    + 2 * s by {
                    lemma_mod_gap(j, jj, 2 * s);
                }
            }
            idx = idx + 2 * stride;
        }
        proof {
            let s = stride as int;
            assert forall|j: int|
                0 <= j < n && #[trigger] (j % (2 * s)) == 0 && j >= idx implies j + s >= n && j % s
                == 0 by {
                lemma_mod_halves(j, s);
            }
        }
        stride = 2 * stride;
    }
    proof {
        assert(0int % (stride as int) == 0) by (nonlinear_arith)
            requires
                stride >= 1,
        ;
    }
}

/// The group a reduced half describes: absent when no agent fell in the
/// node, otherwise sums divided by the member count, toward zero.
pub open spec fn group_v(h: HalfV) -> GroupV
    recommends
        h.count > 0,
{
    GroupV { center: v_tdiv(h.pos, h.count), heading: v_tdiv(h.heading, h.count), count: h.count }
}

pub fn acc_to_group(acc: &AccumulatorHalf) -> (r: Option<Group>)
    ensures
        r is Some <==> acc@.count > 0,
        r matches Some(g) ==> g@ == group_v(acc@),
{
    if acc.count > 0 {
        let c: i64 = acc.count as i64;
        Some(
            Group {
                center: acc.pos.div_by(c),
                heading: acc.heading.div_by(c),
                count: acc.count,
            },
        )
    } else {
        None
    }
}

pub fn zero_half() -> (r: AccumulatorHalf)
    ensures
        r@ == h_zero(),
{
    AccumulatorHalf { pos: Vec3::zero(), count: 0, heading: Vec3::zero() }
}

pub fn zero_slot() -> (r: Accumulator)
    ensures
        r@ == a_zero(),
{
    Accumulator { left: zero_half(), right: zero_half() }
}

} // verus!
