use vstd::prelude::*;
use vstd::arithmetic::power2::{lemma_pow2_adds, lemma_pow2_pos, pow2};
use vstd::arithmetic::div_mod::{
    lemma_fundamental_div_mod, lemma_mod_multiples_vanish, lemma_small_mod,
};
use crate::accum::{
    a_zero, h_add, h_zero, range_sum, reduce_in_place, AccV, Accumulator, AccumulatorHalf, Group,
    HalfV,
};
use crate::boid::{boid_bounded, Boid};
use crate::math::lemma_tdiv_bound;
use crate::select::{seeded, select_boid, SelectParams};
use crate::vec3::{v_bounded, v_tdiv};
use crate::SCALE;

verus! {

/// The flattened index of the node at `level` and in-level position `j`:
/// the levels of the complete binary tree laid out one after another.
pub open spec fn flat_idx(l: int, j: int) -> int {
    pow2(l as nat) as int - 1 + j
}

/// The partition class whose statistics the node at `(level, position)`
/// holds. A split of the class `m` appends its side-true child (class
/// `m + 2^level`) first and its side-false child (class `m`) second, so
/// within the next level the class at position `j` is recovered this way.
pub open spec fn node_class(l: int, j: int) -> int {
    if l <= 0 {
        0
    } else if j % 2 == 0 {
        j / 2 + pow2((l - 1) as nat) as int
    } else {
        j / 2
    }
}

/// Agent `b` belongs to partition class `c` of level `l`: it descended
/// at least `l` levels, and the low `l` bits of its path match `c`.
pub open spec fn in_class(b: Boid, l: int, c: int) -> bool {
    b.level as int >= l && (b.mask as int) % (pow2(l as nat) as int) == c
}

/// The statistics of class `c` at level `l`: sums of positions and
/// headings of its members, and their number.
pub open spec fn class_half(bs: Seq<Boid>, l: int, c: int) -> HalfV
    decreases bs.len(),
{
    if bs.len() == 0 {
        h_zero()
    } else {
        h_add(
            class_half(bs.drop_last(), l, c),
            if in_class(bs.last(), l, c) {
                seeded(bs.last())
            } else {
                h_zero()
            },
        )
    }
}

/// The stored group is exactly what the class's statistics describe:
/// absent for an empty class, otherwise the sums divided by the count.
pub open spec fn group_matches_class(g: Option<Group>, bs: Seq<Boid>, l: int, c: int) -> bool {
    let h = class_half(bs, l, c);
    &&& (g is Some <==> h.count > 0)
    &&& (g matches Some(gr) ==> gr@ == crate::accum::group_v(h))
}

/// The flattened index of the node that was looked up as agent `b`'s
/// separating plane at level `l`.
pub open spec fn plane_node_of(b: Boid, l: int) -> int {
    flat_idx(l, (b.mask as int) % (pow2(l as nat) as int))
}

/// Appending bits at `bigl` and above does not change a path's low `l`
/// bits.
pub proof fn lemma_mask_append_keeps_low(x: int, k: int, l: int, bigl: int)
    requires
        0 <= l <= bigl,
    ensures
        (x + k * pow2(bigl as nat)) % (pow2(l as nat) as int) == x % (pow2(l as nat) as int),
{
    lemma_pow2_adds(l as nat, (bigl - l) as nat);
    lemma_pow2_pos(l as nat);
    lemma_pow2_pos((bigl - l) as nat);
    let m = pow2(l as nat) as int;
    let f = pow2((bigl - l) as nat) as int;
    assert(k * (m * f) == m * (k * f)) by (nonlinear_arith);
    lemma_mod_multiples_vanish(k * f, x, m);
}

/// Two populations with the same members of class `(l, c)` and the same
/// coordinates for them have the same class statistics.
pub proof fn lemma_class_half_congruent(bs1: Seq<Boid>, bs2: Seq<Boid>, l: int, c: int)
    requires
        bs1.len() == bs2.len(),
        forall|i: int|
            0 <= i < bs1.len() ==> (in_class(#[trigger] bs1[i], l, c) == in_class(bs2[i], l, c)),
        forall|i: int|
            0 <= i < bs1.len() && in_class(#[trigger] bs1[i], l, c) ==> bs1[i].pos == bs2[i].pos
                && bs1[i].heading == bs2[i].heading,
    ensures
        class_half(bs1, l, c) == class_half(bs2, l, c),
    decreases bs1.len(),
{
    if bs1.len() > 0 {
        lemma_class_half_congruent(bs1.drop_last(), bs2.drop_last(), l, c);
    }
}

/// A class without members has zero statistics.
pub proof fn lemma_class_empty(bs: Seq<Boid>, l: int, c: int)
    requires
        forall|i: int| 0 <= i < bs.len() ==> !in_class(#[trigger] bs[i], l, c),
    ensures
        class_half(bs, l, c) == h_zero(),
    decreases bs.len(),
{
    if bs.len() > 0 {
        lemma_class_empty(bs.drop_last(), l, c);
    }
}

/// Class statistics stay within `count` times the per-agent bounds.
pub proof fn lemma_class_half_bounded(bs: Seq<Boid>, l: int, c: int, pb: int)
    requires
        0 <= pb,
        forall|i: int| 0 <= i < bs.len() ==> boid_bounded(#[trigger] bs[i], pb),
    ensures
        0 <= class_half(bs, l, c).count <= bs.len(),
        v_bounded(class_half(bs, l, c).pos, class_half(bs, l, c).count * pb),
        v_bounded(class_half(bs, l, c).heading, class_half(bs, l, c).count * (SCALE as int)),
    decreases bs.len(),
{
    if bs.len() > 0 {
        lemma_class_half_bounded(bs.drop_last(), l, c, pb);
        let h = class_half(bs.drop_last(), l, c);
        assert((h.count + 1) * pb == h.count * pb + pb) by (nonlinear_arith);
        assert((h.count + 1) * (SCALE as int) == h.count * (SCALE as int) + SCALE) by (nonlinear_arith);
    }
}

/// A present group derived from a bounded class is itself bounded:
/// centroid within the agents' position bound, mean heading within one
/// unit.
pub proof fn lemma_group_bounded(bs: Seq<Boid>, l: int, c: int, pb: int)
    requires
        0 <= pb,
        forall|i: int| 0 <= i < bs.len() ==> boid_bounded(#[trigger] bs[i], pb),
        class_half(bs, l, c).count > 0,
    ensures
        v_bounded(crate::accum::group_v(class_half(bs, l, c)).center, pb),
        v_bounded(crate::accum::group_v(class_half(bs, l, c)).heading, SCALE as int),
{
    lemma_class_half_bounded(bs, l, c, pb);
    let h = class_half(bs, l, c);
    assert(h.count * pb == pb * h.count) by (nonlinear_arith);
    assert(h.count * (SCALE as int) == (SCALE as int) * h.count) by (nonlinear_arith);
    lemma_tdiv_bound(h.pos.x, h.count, pb);
    lemma_tdiv_bound(h.pos.y, h.count, pb);
    lemma_tdiv_bound(h.pos.z, h.count, pb);
    lemma_tdiv_bound(h.heading.x, h.count, SCALE as int);
    lemma_tdiv_bound(h.heading.y, h.count, SCALE as int);
    lemma_tdiv_bound(h.heading.z, h.count, SCALE as int);
}

/// Slots seeded per membership in two classes sum to those classes'
/// statistics, the left half for `cl` and the right for `cr`.
proof fn lemma_sum_matches_classes_upto(
    bs: Seq<Boid>,
    slots: Seq<Accumulator>,
    l: int,
    cl: int,
    cr: int,
    k: int,
)
    requires
        bs.len() == slots.len(),
        0 <= k <= bs.len(),
        forall|i: int|
            0 <= i < bs.len() ==> #[trigger] slots[i]@.left == if in_class(bs[i], l, cl) {
                seeded(bs[i])
            } else {
                h_zero()
            },
        forall|i: int|
            0 <= i < bs.len() ==> #[trigger] slots[i]@.right == if in_class(bs[i], l, cr) {
                seeded(bs[i])
            } else {
                h_zero()
            },
    ensures
        range_sum(slots, 0, k).left == class_half(bs.take(k), l, cl),
        range_sum(slots, 0, k).right == class_half(bs.take(k), l, cr),
    decreases k,
{
    if k > 0 {
        lemma_sum_matches_classes_upto(bs, slots, l, cl, cr, k - 1);
        assert(bs.take(k).drop_last() =~= bs.take(k - 1));
        assert(bs.take(k).last() == bs[k - 1]);
    } else {
        assert(bs.take(0) =~= Seq::<Boid>::empty());
    }
}

pub proof fn lemma_sum_matches_classes(
    bs: Seq<Boid>,
    slots: Seq<Accumulator>,
    l: int,
    cl: int,
    cr: int,
)
    requires
        bs.len() == slots.len(),
        forall|i: int|
            0 <= i < bs.len() ==> #[trigger] slots[i]@.left == if in_class(bs[i], l, cl) {
                seeded(bs[i])
            } else {
                h_zero()
            },
        forall|i: int|
            0 <= i < bs.len() ==> #[trigger] slots[i]@.right == if in_class(bs[i], l, cr) {
                seeded(bs[i])
            } else {
                h_zero()
            },
    ensures
        range_sum(slots, 0, slots.len() as int).left == class_half(bs, l, cl),
        range_sum(slots, 0, slots.len() as int).right == class_half(bs, l, cr),
{
    lemma_sum_matches_classes_upto(bs, slots, l, cl, cr, bs.len() as int);
    assert(bs.take(bs.len() as int) =~= bs);
}

/// The exponent bounds that keep all tag arithmetic inside `u32`.
proof fn lemma_pow2_small(l: int)
    requires
        0 <= l <= 30,
    ensures
        0 < pow2(l as nat) <= 0x4000_0000,
{
    lemma_pow2_pos(l as nat);
    vstd::arithmetic::power2::lemma2_to64();
    if l < 30 {
        vstd::arithmetic::power2::lemma_pow2_strictly_increases(l as nat, 30);
    }
}

/// A select pass does not change any class of a level at or below its
/// own: matched agents keep their low bits, others do not move.
proof fn lemma_select_preserves_class(
    bs0: Seq<Boid>,
    bs1: Seq<Boid>,
    p: SelectParams,
    l: int,
    c: int,
)
    requires
        bs1.len() == bs0.len(),
        forall|i: int| 0 <= i < bs0.len() ==> bs1[i] == select_boid(#[trigger] bs0[i], p),
        p.level < 30,
        (p.mask as int) < pow2(p.level as nat),
        0 <= l <= p.level as int,
    ensures
        class_half(bs1, l, c) == class_half(bs0, l, c),
{
    assert forall|i: int| 0 <= i < bs0.len() implies (in_class(#[trigger] bs0[i], l, c)
        == in_class(bs1[i], l, c)) && bs0[i].pos == bs1[i].pos && bs0[i].heading
        == bs1[i].heading by {
        let b = bs0[i];
        if crate::select::boid_matches(b, p) {
            lemma_pow2_small(p.level as int);
            let k: int = if crate::select::boid_side(b, p) {
                1
            } else {
                0
            };
            lemma_mask_append_keeps_low(b.mask as int, k, l, p.level as int);
            assert(bs1[i].mask as int == b.mask as int + k * pow2(p.level as nat));
        }
    }
    lemma_class_half_congruent(bs0, bs1, l, c);
}

/// A select pass changes no already-built class of the next level other
/// than the two children of the node it splits.
proof fn lemma_select_preserves_next_class(
    bs0: Seq<Boid>,
    bs1: Seq<Boid>,
    p: SelectParams,
    c: int,
)
    requires
        bs1.len() == bs0.len(),
        forall|i: int| 0 <= i < bs0.len() ==> bs1[i] == select_boid(#[trigger] bs0[i], p),
        forall|i: int| 0 <= i < bs0.len() ==> crate::boid::tag_valid(#[trigger] bs0[i]),
        p.level < 30,
        (p.mask as int) < pow2(p.level as nat),
        c != p.mask as int,
        c != p.mask as int + pow2(p.level as nat) as int,
    ensures
        class_half(bs1, p.level as int + 1, c) == class_half(bs0, p.level as int + 1, c),
{
    let lv = p.level as int;
    lemma_pow2_small(lv);
    lemma_pow2_adds(1, p.level as nat);
    assert(pow2((lv + 1) as nat) == 2 * pow2(lv as nat)) by {
        assert(pow2(1) == 2) by {
            vstd::arithmetic::power2::lemma2_to64();
        }
    }
    assert forall|i: int| 0 <= i < bs0.len() implies (in_class(#[trigger] bs0[i], lv + 1, c)
        == in_class(bs1[i], lv + 1, c)) && bs0[i].pos == bs1[i].pos && bs0[i].heading
        == bs1[i].heading by {
        let b = bs0[i];
        if crate::select::boid_matches(b, p) {
            let k: int = if crate::select::boid_side(b, p) {
                1
            } else {
                0
            };
            let nm: int = b.mask as int + k * pow2(p.level as nat);
            assert(bs1[i].mask as int == nm);
            assert(0 <= nm < pow2((lv + 1) as nat));
            lemma_small_mod(nm as nat, pow2((lv + 1) as nat));
            assert(!in_class(bs0[i], lv + 1, c));
            assert(nm == p.mask as int || nm == p.mask as int + pow2(lv as nat));
            assert(!in_class(bs1[i], lv + 1, c));
        }
    }
    lemma_class_half_congruent(bs0, bs1, lv + 1, c);
}

/// What one agent's slot contributes to each child class after a select
/// pass on `(p.level, p.mask)`.
proof fn lemma_one_slot_to_class(
    bs0: Seq<Boid>,
    bs1: Seq<Boid>,
    slots: Seq<Accumulator>,
    p: SelectParams,
    i: int,
)
    requires
        bs1.len() == bs0.len(),
        slots.len() == bs0.len(),
        0 <= i < bs0.len(),
        bs1[i] == select_boid(bs0[i], p),
        slots[i]@ == crate::select::select_slot(bs0[i], p),
        crate::boid::tag_valid(bs0[i]),
        bs0[i].level as int <= p.level + 1,
        bs0[i].level as int == p.level + 1 ==> (bs0[i].mask as int) % (pow2(p.level as nat) as int)
            < p.mask as int,
        p.level < 30,
        (p.mask as int) < pow2(p.level as nat),
    ensures
        slots[i]@.left == (if in_class(
            bs1[i],
            p.level as int + 1,
            p.mask as int + pow2(p.level as nat),
        ) {
            seeded(bs1[i])
        } else {
            h_zero()
        }),
        slots[i]@.right == (if in_class(bs1[i], p.level as int + 1, p.mask as int) {
            seeded(bs1[i])
        } else {
            h_zero()
        }),
{
    let lv = p.level as int;
    let m = p.mask as int;
    let cl = m + pow2(p.level as nat);
    let cr = m;
    lemma_pow2_small(lv);
    lemma_pow2_adds(1, p.level as nat);
    assert(pow2((lv + 1) as nat) == 2 * pow2(lv as nat)) by {
        assert(pow2(1) == 2) by {
            vstd::arithmetic::power2::lemma2_to64();
        }
    }
    let b = bs0[i];
    let nb = bs1[i];
    if crate::select::boid_matches(b, p) {
        let k: int = if crate::select::boid_side(b, p) {
            1
        } else {
            0
        };
        let nm: int = b.mask as int + k * pow2(p.level as nat);
        assert(nb.mask as int == nm);
        assert(0 <= nm < pow2((lv + 1) as nat));
        lemma_small_mod(nm as nat, pow2((lv + 1) as nat));
        assert(in_class(nb, lv + 1, cl) == (k == 1));
        assert(in_class(nb, lv + 1, cr) == (k == 0));
    } else {
        assert(nb == b);
        if b.level as int == lv + 1 {
            lemma_small_mod(b.mask as nat, pow2((lv + 1) as nat));
            if in_class(nb, lv + 1, cl) {
                assert(b.mask as int == cl);
                lemma_mask_append_keeps_low(m, 1, lv, lv);
                lemma_small_mod(m as nat, pow2(lv as nat));
                assert((b.mask as int) % (pow2(p.level as nat) as int) == m);
            }
            if in_class(nb, lv + 1, cr) {
                assert(b.mask as int == cr);
                lemma_small_mod(m as nat, pow2(lv as nat));
                assert((b.mask as int) % (pow2(p.level as nat) as int) == m);
            }
            assert(!in_class(nb, lv + 1, cl) && !in_class(nb, lv + 1, cr));
        } else {
            assert((nb.level as int) < lv + 1);
        }
    }
}

/// After splitting class `m` of level `l`, the reduced accumulator holds
/// the two child classes' statistics: side-true agents in the left half
/// under class `m + 2^l`, side-false agents in the right under class `m`.
proof fn lemma_select_slots_to_classes(
    bs0: Seq<Boid>,
    bs1: Seq<Boid>,
    slots: Seq<Accumulator>,
    p: SelectParams,
)
    requires
        bs1.len() == bs0.len(),
        slots.len() == bs0.len(),
        forall|i: int| 0 <= i < bs0.len() ==> bs1[i] == select_boid(#[trigger] bs0[i], p),
        forall|i: int|
            0 <= i < bs0.len() ==> slots[i]@ == crate::select::select_slot(
                #[trigger] bs0[i],
                p,
            ),
        forall|i: int| 0 <= i < bs0.len() ==> crate::boid::tag_valid(#[trigger] bs0[i]),
        forall|i: int| 0 <= i < bs0.len() ==> (#[trigger] bs0[i]).level as int <= p.level + 1,
        forall|i: int|
            0 <= i < bs0.len() && (#[trigger] bs0[i]).level as int == p.level + 1 ==> (
            bs0[i].mask as int) % (pow2(p.level as nat) as int) < p.mask as int,
        p.level < 30,
        (p.mask as int) < pow2(p.level as nat),
    ensures
        range_sum(slots, 0, slots.len() as int).left == class_half(
            bs1,
            p.level as int + 1,
            p.mask as int + pow2(p.level as nat),
        ),
        range_sum(slots, 0, slots.len() as int).right == class_half(
            bs1,
            p.level as int + 1,
            p.mask as int,
        ),
{
    let lv = p.level as int;
    let m = p.mask as int;
    let cl = m + pow2(p.level as nat);
    let cr = m;
    lemma_pow2_small(lv);
    lemma_pow2_adds(1, p.level as nat);
    assert(pow2((lv + 1) as nat) == 2 * pow2(lv as nat)) by {
        assert(pow2(1) == 2) by {
            vstd::arithmetic::power2::lemma2_to64();
        }
    }
    assert forall|i: int| 0 <= i < bs1.len() implies (#[trigger] slots[i]@.left == (if in_class(
        bs1[i],
        lv + 1,
        cl,
    ) {
        seeded(bs1[i])
    } else {
        h_zero()
    })) by {
        lemma_one_slot_to_class(bs0, bs1, slots, p, i);
    }
    assert forall|i: int| 0 <= i < bs1.len() implies (#[trigger] slots[i]@.right == (if in_class(
        bs1[i],
        lv + 1,
        cr,
    ) {
        seeded(bs1[i])
    } else {
        h_zero()
    })) by {
        lemma_one_slot_to_class(bs0, bs1, slots, p, i);
    }
    lemma_sum_matches_classes(bs1, slots, lv + 1, cl, cr);
}

/// When the looked-up plane is absent nothing is split: the two child
/// classes hold no one, because every agent past this level descended
/// from an earlier class of it.
proof fn lemma_skip_children_empty(bs: Seq<Boid>, lv: int, m: int)
    requires
        forall|i: int| 0 <= i < bs.len() ==> crate::boid::tag_valid(#[trigger] bs[i]),
        forall|i: int| 0 <= i < bs.len() ==> (#[trigger] bs[i]).level as int <= lv + 1,
        forall|i: int|
            0 <= i < bs.len() && (#[trigger] bs[i]).level as int == lv + 1 ==> (bs[i].mask as int)
                % (pow2(lv as nat) as int) < m,
        0 <= lv <= 30,
        0 <= m < pow2(lv as nat),
    ensures
        class_half(bs, lv + 1, m) == h_zero(),
        class_half(bs, lv + 1, m + pow2(lv as nat)) == h_zero(),
{
    lemma_pow2_small(lv);
    lemma_pow2_adds(1, lv as nat);
    assert(pow2((lv + 1) as nat) == 2 * pow2(lv as nat)) by {
        assert(pow2(1) == 2) by {
            vstd::arithmetic::power2::lemma2_to64();
        }
    }
    let cl = m + pow2(lv as nat);
    assert forall|i: int| 0 <= i < bs.len() implies !in_class(#[trigger] bs[i], lv + 1, m)
        && !in_class(bs[i], lv + 1, cl) by {
        let b = bs[i];
        if b.level as int == lv + 1 {
            lemma_small_mod(b.mask as nat, pow2((lv + 1) as nat));
            lemma_small_mod(m as nat, pow2(lv as nat));
            lemma_mask_append_keeps_low(m, 1, lv, lv);
        }
    }
    lemma_class_empty(bs, lv + 1, m);
    lemma_class_empty(bs, lv + 1, cl);
}

pub proof fn lemma_pow2_mono(a: int, b: int)
    requires
        0 <= a <= b,
    ensures
        pow2(a as nat) <= pow2(b as nat),
{
    if a < b {
        vstd::arithmetic::power2::lemma_pow2_strictly_increases(a as nat, b as nat);
    }
}

/// Positions and headings are never touched by tree construction.
pub open spec fn coords_preserved(bs0: Seq<Boid>, bs: Seq<Boid>) -> bool {
    bs.len() == bs0.len() && forall|i: int|
        0 <= i < bs.len() ==> (#[trigger] bs[i]).pos == bs0[i].pos && bs[i].heading
            == bs0[i].heading
}

/// Every agent's tag is consistent and no deeper than `maxlevel`.
pub open spec fn tags_ok(bs: Seq<Boid>, maxlevel: int) -> bool {
    forall|i: int|
        0 <= i < bs.len() ==> (#[trigger] bs[i]).level as int <= maxlevel
            && crate::boid::tag_valid(bs[i])
}

/// Every node stored so far holds exactly its class's statistics.
pub open spec fn nodes_ok(parts: Seq<Option<Group>>, bs: Seq<Boid>) -> bool {
    forall|l: int, j: int|
        0 <= l && 0 <= j < pow2(l as nat) && flat_idx(l, j) < parts.len()
            ==> group_matches_class(parts[flat_idx(l, j)], bs, l, #[trigger] node_class(l, j))
}

/// An agent that stopped descending before the pass now under way did so
/// because the plane node looked up for its class was absent.
pub open spec fn stalls_ok(parts: Seq<Option<Group>>, bs: Seq<Boid>, lcur: int, mcur: int) -> bool {
    forall|i: int|
        0 <= i < bs.len() && (((#[trigger] bs[i]).level as int) < lcur || (bs[i].level as int
            == lcur && (bs[i].mask as int) < mcur)) ==> {
            &&& 0 <= flat_idx(bs[i].level as int, bs[i].mask as int) < parts.len()
            &&& parts[flat_idx(bs[i].level as int, bs[i].mask as int)] is None
        }
}

/// An agent descended past a level only because the plane node looked up
/// for its class there was present.
pub open spec fn advances_ok(parts: Seq<Option<Group>>, bs: Seq<Boid>) -> bool {
    forall|i: int, l: int|
        0 <= i < bs.len() && 0 <= l < bs[i].level as int ==> {
            &&& 0 <= #[trigger] plane_node_of(bs[i], l) < parts.len()
            &&& parts[plane_node_of(bs[i], l)] is Some
        }
}

/// Bit `l` of an agent's path: which side of the level-`l` separating
/// plane it fell on.
pub open spec fn mask_bit(b: Boid, l: int) -> bool {
    ((b.mask as int) / (pow2(l as nat) as int)) % 2 == 1
}

/// Every recorded side is the geometric one: where the plane node an
/// agent was split by at level `l` is present, bit `l` of its path is
/// set exactly when its position lies on the positive side of the
/// plane derived from that node's centroid and stored heading.
pub open spec fn sides_ok(parts: Seq<Option<Group>>, bs: Seq<Boid>) -> bool {
    forall|i: int, l: int|
        0 <= i < bs.len() && 0 <= l < bs[i].level as int ==> match parts[#[trigger] plane_node_of(
            bs[i],
            l,
        )] {
            Option::Some(g) => mask_bit(bs[i], l) == crate::select::side_of(
                bs[i].pos@,
                g.center@,
                g.heading@,
            ),
            Option::None => true,
        }
}

/// Appending a bit at `bigl` changes no bit below it.
proof fn lemma_bit_append(x: int, k: int, l: int, bigl: int)
    requires
        0 <= x,
        0 <= k <= 1,
        0 <= l < bigl,
    ensures
        ((x + k * pow2(bigl as nat)) / (pow2(l as nat) as int)) % 2 == (x / (pow2(l as nat) as int))
            % 2,
{
    let p = pow2(l as nat) as int;
    lemma_pow2_pos(l as nat);
    lemma_fundamental_div_mod(x, p);
    let q = x / p;
    let r = x % p;
    lemma_pow2_adds(l as nat, (bigl - l) as nat);
    let f = pow2((bigl - l) as nat) as int;
    assert(x + k * (p * f) == p * (q + k * f) + r) by (nonlinear_arith)
        requires
            x == p * q + r,
    ;
    vstd::arithmetic::div_mod::lemma_mod_bound(x, p);
    vstd::arithmetic::div_mod::lemma_div_multiples_vanish_fancy(q + k * f, r, p);
    assert((x + k * pow2(bigl as nat)) / p == q + k * f);
    lemma_pow2_adds(1, (bigl - l - 1) as nat);
    assert(pow2(1) == 2) by {
        vstd::arithmetic::power2::lemma2_to64();
    }
    let f2 = pow2((bigl - l - 1) as nat) as int;
    assert(q + k * (2 * f2) == 2 * (k * f2) + q) by (nonlinear_arith);
    lemma_mod_multiples_vanish(k * f2, q, 2);
}

/// The bit appended at `bigl` itself is the side that was recorded.
proof fn lemma_bit_new(m: int, k: int, bigl: int)
    requires
        0 <= m < pow2(bigl as nat),
        0 <= k <= 1,
    ensures
        ((m + k * pow2(bigl as nat)) / (pow2(bigl as nat) as int)) % 2 == k,
{
    lemma_pow2_pos(bigl as nat);
    let p = pow2(bigl as nat) as int;
    assert(m + k * p == p * k + m) by (nonlinear_arith);
    vstd::arithmetic::div_mod::lemma_div_multiples_vanish_fancy(k, m, p);
    assert((m + k * p) / p == k);
}

/// During the pass over level `l`, agents already moved to `l + 1` come
/// only from the classes already processed.
pub open spec fn level_progress_ok(bs: Seq<Boid>, lv: int, m: int) -> bool {
    forall|i: int|
        0 <= i < bs.len() && (#[trigger] bs[i]).level as int == lv + 1 ==> (bs[i].mask as int) % (
        pow2(lv as nat) as int) < m
}

/// Seeds every agent's slot with its own state in the left half and
/// resets its tag to the root class, the transition into level 0.
pub fn setup_pass(boids: &mut Vec<Boid>, acc: &mut Vec<Accumulator>)
    requires
        old(boids)@.len() == old(acc)@.len(),
        old(boids)@.len() <= 0x10_0000,
    ensures
        final(boids)@.len() == old(boids)@.len(),
        final(acc)@.len() == old(acc)@.len(),
        forall|i: int|
            0 <= i < old(boids)@.len() ==> #[trigger] final(boids)@[i] == (Boid {
                pos: old(boids)@[i].pos,
                heading: old(boids)@[i].heading,
                level: 0u32,
                mask: 0u32,
            }),
        forall|i: int|
            0 <= i < old(acc)@.len() ==> #[trigger] final(acc)@[i]@ == (AccV {
                left: seeded(old(boids)@[i]),
                right: h_zero(),
            }),
{
    let n: usize = boids.len();
    let mut i: usize = 0;
    while i < n
        invariant
            n == old(boids)@.len(),
            boids@.len() == n,
            acc@.len() == n,
            0 <= i <= n,
            forall|k: int| i <= k < n ==> #[trigger] boids@[k] == old(boids)@[k],
            forall|k: int|
                0 <= k < i ==> #[trigger] boids@[k] == (Boid {
                    pos: old(boids)@[k].pos,
                    heading: old(boids)@[k].heading,
                    level: 0u32,
                    mask: 0u32,
                }),
            forall|k: int|
                0 <= k < i ==> #[trigger] acc@[k]@ == (AccV {
                    left: seeded(old(boids)@[k]),
                    right: h_zero(),
                }),
        decreases n - i,
    {
        let b: Boid = boids[i];
        boids[i] = Boid { pos: b.pos, heading: b.heading, level: 0, mask: 0 };
        acc[i] = Accumulator {
            left: AccumulatorHalf { pos: b.pos, count: 1, heading: b.heading },
            right: crate::accum::zero_half(),
        };
        i = i + 1;
    }
}

/// Builds the whole partition tree for one step: seeds and reduces the
/// root, then for each level and each class in mask order looks up the
/// stored plane node, splits the class when it is present, and appends
/// the two child groups — absent children without any work when it is
/// not. Returns the flattened node list; the tail from `2^depth - 1` on
/// is the leaf list.
pub fn build_tree(boids: &mut Vec<Boid>, acc: &mut Vec<Accumulator>, depth: u32) -> (parts: Vec<
    Option<Group>,
>)
    requires
        old(boids)@.len() == old(acc)@.len(),
        1 <= old(boids)@.len() <= 0x10_0000,
        1 <= depth <= 20,
        forall|i: int|
            0 <= i < old(boids)@.len() ==> boid_bounded(#[trigger] old(boids)@[i], 0x100_0000_0000),
    ensures
        final(boids)@.len() == old(boids)@.len(),
        final(acc)@.len() == old(acc)@.len(),
        coords_preserved(old(boids)@, final(boids)@),
        tags_ok(final(boids)@, depth as int),
        parts@.len() == pow2((depth + 1) as nat) - 1,
        nodes_ok(parts@, final(boids)@),
        stalls_ok(parts@, final(boids)@, depth as int, 0),
        advances_ok(parts@, final(boids)@),
        sides_ok(parts@, final(boids)@),
        forall|l: int, m: int|
            0 <= l < depth as int && 0 <= m < pow2(l as nat) && #[trigger] parts@[flat_idx(l, m)]
                is None ==> parts@[flat_idx(l + 1, 2 * m)] is None && parts@[flat_idx(
                l + 1,
                2 * m + 1,
            )] is None,
{
    let n: usize = boids.len();
    setup_pass(boids, acc);
    proof {
        vstd::arithmetic::power2::lemma2_to64();
        assert(pow2(0) == 1);
        assert forall|i: int| 0 <= i < n implies #[trigger] acc@[i]@.left == (if in_class(
            boids@[i],
            0,
            0,
        ) {
            seeded(boids@[i])
        } else {
            h_zero()
        }) by {
            assert(boids@[i].mask == 0 && boids@[i].level == 0);
            assert((0int) % (1int) == 0);
            assert(seeded(boids@[i]) == seeded(old(boids)@[i]));
        }
        assert forall|i: int| 0 <= i < n implies #[trigger] acc@[i]@.right == (if in_class(
            boids@[i],
            0,
            -1,
        ) {
            seeded(boids@[i])
        } else {
            h_zero()
        }) by {
            assert((0int) % (1int) == 0);
        }
        lemma_sum_matches_classes(boids@, acc@, 0, 0, -1);
        assert forall|i: int| 0 <= i < n implies crate::accum::slot_bounded(
            #[trigger] acc@[i]@,
        ) by {
            assert(boid_bounded(old(boids)@[i], 0x100_0000_0000));
        }
    }
    let ghost bs1 = boids@;
    let ghost slots0 = acc@;
    reduce_in_place(acc);
    let a0: Accumulator = acc[0];
    let root: Option<Group> = crate::accum::acc_to_group(&a0.left);
    let mut parts: Vec<Option<Group>> = Vec::new();
    parts.push(root);
    proof {
        assert(a0.left@ == class_half(bs1, 0, 0));
        assert(node_class(0, 0) == 0);
        assert(flat_idx(0, 0) == 0);
        assert forall|l: int, j: int|
            0 <= l && 0 <= j < pow2(l as nat) && flat_idx(l, j) < parts@.len() implies
            group_matches_class(parts@[flat_idx(l, j)], boids@, l, #[trigger] node_class(
                l,
                j,
            )) by {
            if l >= 1 {
                lemma_pow2_mono(1, l);
                assert(flat_idx(l, j) >= 1);
            } else {
                assert(l == 0 && j == 0);
            }
        }
        assert(nodes_ok(parts@, boids@));
        assert(tags_ok(boids@, 0));
        assert(stalls_ok(parts@, boids@, 0, 0));
        assert(advances_ok(parts@, boids@));
    }
    let mut level: u32 = 0;
    let mut width: usize = 1;
    let mut total: usize = 0;
    while level < depth
        invariant
            n == old(boids)@.len(),
            boids@.len() == n,
            acc@.len() == n,
            1 <= n <= 0x10_0000,
            0 <= level <= depth,
            1 <= depth <= 20,
            width == pow2(level as nat),
            width <= 0x100_000,
            total as int == width - 1,
            parts@.len() == 2 * width - 1,
            coords_preserved(old(boids)@, boids@),
            forall|i: int|
                0 <= i < n ==> boid_bounded(#[trigger] boids@[i], 0x100_0000_0000),
            tags_ok(boids@, level as int),
            nodes_ok(parts@, boids@),
            stalls_ok(parts@, boids@, level as int, 0),
            advances_ok(parts@, boids@),
            sides_ok(parts@, boids@),
        decreases depth - level,
    {
        let mut m: usize = 0;
        proof {
            assert(level_progress_ok(boids@, level as int, 0));
        }
        while m < width
            invariant
                n == old(boids)@.len(),
                boids@.len() == n,
                acc@.len() == n,
                1 <= n <= 0x10_0000,
                0 <= level < depth <= 20,
                width == pow2(level as nat),
                width <= 0x100_000,
                0 <= m <= width,
                total as int == width - 1 + m,
                parts@.len() == 2 * width - 1 + 2 * m,
                coords_preserved(old(boids)@, boids@),
                forall|i: int|
                    0 <= i < n ==> boid_bounded(#[trigger] boids@[i], 0x100_0000_0000),
                tags_ok(boids@, level as int + 1),
                level_progress_ok(boids@, level as int, m as int),
                nodes_ok(parts@, boids@),
                stalls_ok(parts@, boids@, level as int, m as int),
                advances_ok(parts@, boids@),
                sides_ok(parts@, boids@),
            decreases width - m,
        {
            let parent: Option<Group> = parts[total];
            let ghost bs_pre = boids@;
            let ghost parts_pre = parts@;
            let ghost lv = level as int;
            let ghost mm = m as int;
            proof {
                lemma_pow2_small(lv);
                lemma_pow2_small(lv + 1);
                lemma_pow2_adds(1, level as nat);
                assert(pow2((lv + 1) as nat) == 2 * pow2(lv as nat)) by {
                    assert(pow2(1) == 2) by {
                        vstd::arithmetic::power2::lemma2_to64();
                    }
                }
                assert(flat_idx(lv, mm) == total as int);
                let c0 = node_class(lv, mm);
                assert(group_matches_class(parts_pre[flat_idx(lv, mm)], bs_pre, lv, c0));
            }
            match parent {
                Some(g) => {
                    proof {
                        let c0 = node_class(lv, mm);
                        lemma_group_bounded(bs_pre, lv, c0, 0x100_0000_0000);
                        assert(g@ == crate::accum::group_v(class_half(bs_pre, lv, c0)));
                    }
                    let sp: SelectParams = SelectParams {
                        plane_pos: g.center,
                        mask: m as u32,
                        plane_normal: g.heading,
                        level,
                    };
                    crate::select::select_pass(boids, acc, &sp);
                    let ghost slots = acc@;
                    proof {
                        lemma_select_slots_to_classes(bs_pre, boids@, slots, sp);
                        assert forall|i: int| 0 <= i < n implies crate::accum::slot_bounded(
                            #[trigger] acc@[i]@,
                        ) by {
                            assert(slots[i]@ == crate::select::select_slot(bs_pre[i], sp));
                            assert(boid_bounded(bs_pre[i], 0x100_0000_0000));
                        }
                    }
                    reduce_in_place(acc);
                    let a: Accumulator = acc[0];
                    let gl: Option<Group> = crate::accum::acc_to_group(&a.left);
                    let gr: Option<Group> = crate::accum::acc_to_group(&a.right);
                    parts.push(gl);
                    parts.push(gr);
                    proof {
                        let cl = mm + pow2(level as nat) as int;
                        let cr = mm;
                        assert(a@ == range_sum(slots, 0, n as int));
                        assert(a.left@ == class_half(boids@, lv + 1, cl));
                        assert(a.right@ == class_half(boids@, lv + 1, cr));
                        lemma_div_pair(mm);
                        assert(node_class(lv + 1, 2 * mm) == cl);
                        assert(node_class(lv + 1, 2 * mm + 1) == cr);
                        // the two new nodes hold the two child classes
                        assert(flat_idx(lv + 1, 2 * mm) == parts_pre.len());
                        assert(flat_idx(lv + 1, 2 * mm + 1) == parts_pre.len() + 1);
                        assert(group_matches_class(gl, boids@, lv + 1, cl));
                        assert(group_matches_class(gr, boids@, lv + 1, cr));
                        // older nodes keep their classes
                        assert forall|l: int, j: int|
                            0 <= l && 0 <= j < pow2(l as nat) && flat_idx(l, j) < parts@.len()
                                implies group_matches_class(
                                parts@[flat_idx(l, j)],
                                boids@,
                                l,
                                #[trigger] node_class(l, j),
                            ) by {
                            lemma_node_case(
                                parts_pre,
                                parts@,
                                bs_pre,
                                boids@,
                                sp,
                                gl,
                                gr,
                                l,
                                j,
                            );
                        }
                        // tag bookkeeping
                        assert forall|i: int| 0 <= i < n implies ((#[trigger] boids@[i]).level
                            as int <= lv + 1) && crate::boid::tag_valid(boids@[i]) && (boids@[i].level
                            as int == lv + 1 ==> (boids@[i].mask as int) % (pow2(level as nat) as int)
                            < mm + 1) by {
                            let b = bs_pre[i];
                            let nb = boids@[i];
                            assert(nb == select_boid(b, sp));
                            if crate::select::boid_matches(b, sp) {
                                let k: int = if crate::select::boid_side(b, sp) {
                                    1
                                } else {
                                    0
                                };
                                assert(nb.mask as int == b.mask as int + k * pow2(level as nat));
                                lemma_mask_append_keeps_low(b.mask as int, k, lv, lv);
                                lemma_small_mod(b.mask as nat, pow2(level as nat));
                            }
                        }
                        // stalls and advances
                        assert forall|i: int|
                            0 <= i < n && (((#[trigger] boids@[i]).level as int) < lv || (
                            boids@[i].level as int == lv && (boids@[i].mask as int) < mm + 1))
                                implies (0 <= flat_idx(
                                boids@[i].level as int,
                                boids@[i].mask as int,
                            ) < parts@.len() && parts@[flat_idx(
                                boids@[i].level as int,
                                boids@[i].mask as int,
                            )] is None) by {
                            let b = bs_pre[i];
                            let nb = boids@[i];
                            assert(nb == select_boid(b, sp));
                            assert(nb == b);
                        }
                        assert forall|i: int, l: int|
                            0 <= i < n && 0 <= l < boids@[i].level as int implies (0
                                <= #[trigger] plane_node_of(boids@[i], l) < parts@.len()
                                && parts@[plane_node_of(boids@[i], l)] is Some) by {
                            let b = bs_pre[i];
                            let nb = boids@[i];
                            assert(nb == select_boid(b, sp));
                            if crate::select::boid_matches(b, sp) {
                                let k: int = if crate::select::boid_side(b, sp) {
                                    1
                                } else {
                                    0
                                };
                                assert(nb.mask as int == b.mask as int + k * pow2(level as nat));
                                lemma_mask_append_keeps_low(b.mask as int, k, l, lv);
                                if l < lv {
                                    assert(plane_node_of(nb, l) == plane_node_of(b, l));
                                } else {
                                    assert(l == lv);
                                    lemma_small_mod(b.mask as nat, pow2(level as nat));
                                    assert(plane_node_of(nb, l) == flat_idx(lv, mm));
                                }
                            } else {
                                assert(plane_node_of(nb, l) == plane_node_of(b, l));
                            }
                        }
                        // recorded sides stay the geometric ones
                        assert forall|i: int, l: int|
                            0 <= i < n && 0 <= l < boids@[i].level as int implies match parts@[#[trigger] plane_node_of(
                            boids@[i],
                            l,
                        )] {
                            Option::Some(g2) => mask_bit(boids@[i], l)
                                == crate::select::side_of(boids@[i].pos@, g2.center@, g2.heading@),
                            Option::None => true,
                        } by {
                            let b = bs_pre[i];
                            let nb = boids@[i];
                            assert(nb == select_boid(b, sp));
                            if crate::select::boid_matches(b, sp) {
                                let k: int = if crate::select::boid_side(b, sp) {
                                    1
                                } else {
                                    0
                                };
                                assert(nb.mask as int == b.mask as int + k * pow2(level as nat));
                                if l < lv {
                                    lemma_mask_append_keeps_low(b.mask as int, k, l, lv);
                                    lemma_bit_append(b.mask as int, k, l, lv);
                                    assert(plane_node_of(nb, l) == plane_node_of(b, l));
                                    assert(0 <= plane_node_of(b, l) < parts_pre.len());
                                    assert(mask_bit(nb, l) == mask_bit(b, l));
                                } else {
                                    assert(l == lv);
                                    lemma_mask_append_keeps_low(b.mask as int, k, lv, lv);
                                    lemma_small_mod(b.mask as nat, pow2(level as nat));
                                    assert(plane_node_of(nb, lv) == flat_idx(lv, mm));
                                    lemma_bit_new(mm, k, lv);
                                    assert(mask_bit(nb, lv) == (k == 1));
                                    assert(parts@[flat_idx(lv, mm)] == Option::Some(g));
                                }
                            } else {
                                assert(nb == b);
                                if 0 <= l < b.level as int {
                                    assert(0 <= plane_node_of(b, l) < parts_pre.len());
                                }
                            }
                        }
                    }
                }
                None => {
                    parts.push(None);
                    parts.push(None);
                    proof {
                        let cl = mm + pow2(level as nat) as int;
                        let cr = mm;
                        lemma_skip_children_empty(boids@, lv, mm);
                        lemma_div_pair(mm);
                        assert(node_class(lv + 1, 2 * mm) == cl);
                        assert(node_class(lv + 1, 2 * mm + 1) == cr);
                        assert(flat_idx(lv + 1, 2 * mm) == parts_pre.len());
                        assert(group_matches_class(None::<Group>, boids@, lv + 1, cl));
                        assert(group_matches_class(None::<Group>, boids@, lv + 1, cr));
                        assert forall|l: int, j: int|
                            0 <= l && 0 <= j < pow2(l as nat) && flat_idx(l, j) < parts@.len()
                                implies group_matches_class(
                                parts@[flat_idx(l, j)],
                                boids@,
                                l,
                                #[trigger] node_class(l, j),
                            ) by {
                            if flat_idx(l, j) < parts_pre.len() {
                            } else {
                                lemma_flat_new_nodes(l, j, lv, mm, parts_pre.len() as int);
                            }
                        }
                        assert(stalls_ok(parts@, boids@, lv, mm + 1));
                        assert forall|i: int, l: int|
                            0 <= i < n && 0 <= l < boids@[i].level as int implies match parts@[#[trigger] plane_node_of(
                            boids@[i],
                            l,
                        )] {
                            Option::Some(g2) => mask_bit(boids@[i], l)
                                == crate::select::side_of(boids@[i].pos@, g2.center@, g2.heading@),
                            Option::None => true,
                        } by {
                            let b = boids@[i];
                            assert(0 <= plane_node_of(b, l) < parts_pre.len());
                        }
                    }
                }
            }
            total = total + 1;
            m = m + 1;
        }
        proof {
            assert forall|i: int|
                0 <= i < n && (((#[trigger] boids@[i]).level as int) < level as int + 1) implies (0
                    <= flat_idx(boids@[i].level as int, boids@[i].mask as int) < parts@.len()
                    && parts@[flat_idx(boids@[i].level as int, boids@[i].mask as int)]
                    is None) by {
                assert(crate::boid::tag_valid(boids@[i]));
            }
            lemma_pow2_adds(1, level as nat);
            assert(pow2((level + 1) as nat) == 2 * pow2(level as nat)) by {
                assert(pow2(1) == 2) by {
                    vstd::arithmetic::power2::lemma2_to64();
                }
            }
            lemma_pow2_mono(level as int + 1, 20);
            assert(pow2(20) == 0x100_000) by {
                vstd::arithmetic::power2::lemma2_to64();
            }
        }
        level = level + 1;
        width = 2 * width;
    }
    proof {
        assert forall|l: int, m: int|
            0 <= l < depth as int && 0 <= m < pow2(l as nat) && #[trigger] parts@[flat_idx(l, m)]
                is None implies (parts@[flat_idx(l + 1, 2 * m)] is None && parts@[flat_idx(
                l + 1,
                2 * m + 1,
            )] is None) by {
            lemma_absent_children(parts@, boids@, depth as int, l, m);
        }
    }
    parts
}

/// Halving the two positions a split appends recovers its loop mask.
proof fn lemma_div_pair(mm: int)
    requires
        0 <= mm,
    ensures
        (2 * mm) % 2 == 0,
        (2 * mm) / 2 == mm,
        (2 * mm + 1) % 2 == 1,
        (2 * mm + 1) / 2 == mm,
{
    vstd::arithmetic::div_mod::lemma_div_multiples_vanish_fancy(mm, 0, 2);
    vstd::arithmetic::div_mod::lemma_div_multiples_vanish_fancy(mm, 1, 2);
    vstd::arithmetic::div_mod::lemma_mod_multiples_vanish(mm, 0, 2);
    vstd::arithmetic::div_mod::lemma_mod_multiples_vanish(mm, 1, 2);
}

/// A node index at or past the old length belongs to one of the two
/// nodes just appended.
proof fn lemma_flat_new_nodes(l: int, j: int, lv: int, mm: int, oldlen: int)
    requires
        0 <= l,
        0 <= j < pow2(l as nat),
        0 <= lv <= 30,
        0 <= mm < pow2(lv as nat),
        oldlen == pow2((lv + 1) as nat) - 1 + 2 * mm,
        oldlen <= flat_idx(l, j) < oldlen + 2,
    ensures
        l == lv + 1,
        j == 2 * mm || j == 2 * mm + 1,
{
    lemma_pow2_adds(1, lv as nat);
    assert(pow2(1) == 2) by {
        vstd::arithmetic::power2::lemma2_to64();
    }
    if l <= lv {
        lemma_pow2_mono(l, lv);
        assert(flat_idx(l, j) <= pow2(lv as nat) as int - 1 + j);
        assert(j < pow2(l as nat));
        lemma_pow2_mono(l, lv);
        assert(flat_idx(l, j) < 2 * pow2(lv as nat) as int - 1);
        assert(false);
    }
    if l >= lv + 2 {
        lemma_pow2_mono(lv + 2, l);
        assert(pow2((lv + 2) as nat) == 2 * pow2((lv + 1) as nat)) by {
            lemma_pow2_adds(1, (lv + 1) as nat);
            assert(pow2(1) == 2) by {
                vstd::arithmetic::power2::lemma2_to64();
            }
        }
        assert(flat_idx(l, j) >= pow2(l as nat) as int - 1);
        assert(pow2(l as nat) >= pow2((lv + 2) as nat));
        assert(2 * mm + 2 <= 2 * pow2(lv as nat));
        assert(false);
    }
    assert(l == lv + 1);
}

/// If the plane node of `(l, m)` is absent, both nodes appended for the
/// split of class `m` are absent: no agent ever descended past level `l`
/// inside class `m`, so both child classes are empty.
proof fn lemma_absent_children(
    parts: Seq<Option<Group>>,
    bs: Seq<Boid>,
    depth: int,
    l: int,
    m: int,
)
    requires
        1 <= depth <= 20,
        0 <= l < depth,
        0 <= m < pow2(l as nat),
        parts.len() == pow2((depth + 1) as nat) - 1,
        nodes_ok(parts, bs),
        tags_ok(bs, depth),
        advances_ok(parts, bs),
        parts[flat_idx(l, m)] is None,
    ensures
        parts[flat_idx(l + 1, 2 * m)] is None,
        parts[flat_idx(l + 1, 2 * m + 1)] is None,
{
    lemma_pow2_small(l);
    lemma_pow2_adds(1, l as nat);
    assert(pow2((l + 1) as nat) == 2 * pow2(l as nat)) by {
        assert(pow2(1) == 2) by {
            vstd::arithmetic::power2::lemma2_to64();
        }
    }
    let cl = m + pow2(l as nat) as int;
    let cr = m;
    // every agent of a child class advanced past level l with low bits m,
    // so its plane node at level l — the absent one — would be present
    assert forall|i: int| 0 <= i < bs.len() implies !in_class(#[trigger] bs[i], l + 1, cr)
        && !in_class(bs[i], l + 1, cl) by {
        let b = bs[i];
        if (b.level as int) >= l + 1 {
            assert(0 <= l < b.level as int);
            assert(parts[plane_node_of(b, l)] is Some);
            vstd::arithmetic::div_mod::lemma_mod_mod(b.mask as int, pow2(l as nat) as int, 2);
            if in_class(b, l + 1, cr) {
                lemma_small_mod(m as nat, pow2(l as nat));
                assert((b.mask as int) % (pow2(l as nat) as int) == m);
                assert(plane_node_of(b, l) == flat_idx(l, m));
                assert(false);
            }
            if in_class(b, l + 1, cl) {
                lemma_mask_append_keeps_low(m, 1, l, l);
                lemma_small_mod(m as nat, pow2(l as nat));
                assert((b.mask as int) % (pow2(l as nat) as int) == m);
                assert(plane_node_of(b, l) == flat_idx(l, m));
                assert(false);
            }
        }
    }
    lemma_class_empty(bs, l + 1, cr);
    lemma_class_empty(bs, l + 1, cl);
    lemma_div_pair(m);
    assert(node_class(l + 1, 2 * m) == cl);
    assert(node_class(l + 1, 2 * m + 1) == cr);
    lemma_pow2_mono(l + 2, depth + 1);
    assert(pow2((l + 2) as nat) == 2 * pow2((l + 1) as nat)) by {
        lemma_pow2_adds(1, (l + 1) as nat);
        assert(pow2(1) == 2) by {
            vstd::arithmetic::power2::lemma2_to64();
        }
    }
    assert(flat_idx(l + 1, 2 * m + 1) < parts.len());
    assert(group_matches_class(parts[flat_idx(l + 1, 2 * m)], bs, l + 1, node_class(l + 1, 2 * m)));
    assert(group_matches_class(
        parts[flat_idx(l + 1, 2 * m + 1)],
        bs,
        l + 1,
        node_class(l + 1, 2 * m + 1),
    ));
}

/// One case of re-checking a stored node after a split: nodes below the
/// split's level keep their classes, nodes of the next level other than
/// the two new ones are untouched, and the two new ones hold the split's
/// results.
proof fn lemma_node_case(
    parts_pre: Seq<Option<Group>>,
    parts: Seq<Option<Group>>,
    bs_pre: Seq<Boid>,
    bs: Seq<Boid>,
    p: SelectParams,
    gl: Option<Group>,
    gr: Option<Group>,
    l: int,
    j: int,
)
    requires
        bs.len() == bs_pre.len(),
        forall|i: int| 0 <= i < bs_pre.len() ==> bs[i] == select_boid(#[trigger] bs_pre[i], p),
        forall|i: int| 0 <= i < bs_pre.len() ==> crate::boid::tag_valid(#[trigger] bs_pre[i]),
        p.level < 30,
        (p.mask as int) < pow2(p.level as nat),
        parts_pre.len() == pow2((p.level + 1) as nat) - 1 + 2 * (p.mask as int),
        parts == parts_pre.push(gl).push(gr),
        nodes_ok(parts_pre, bs_pre),
        group_matches_class(gl, bs, p.level as int + 1, p.mask as int + pow2(p.level as nat)),
        group_matches_class(gr, bs, p.level as int + 1, p.mask as int),
        0 <= l,
        0 <= j < pow2(l as nat),
        flat_idx(l, j) < parts.len(),
    ensures
        group_matches_class(parts[flat_idx(l, j)], bs, l, node_class(l, j)),
{
    let lv = p.level as int;
    let mm = p.mask as int;
    lemma_pow2_small(lv);
    lemma_pow2_adds(1, p.level as nat);
    assert(pow2((lv + 1) as nat) == 2 * pow2(lv as nat)) by {
        assert(pow2(1) == 2) by {
            vstd::arithmetic::power2::lemma2_to64();
        }
    }
    if flat_idx(l, j) < parts_pre.len() {
        assert(parts[flat_idx(l, j)] == parts_pre[flat_idx(l, j)]);
        assert(group_matches_class(parts_pre[flat_idx(l, j)], bs_pre, l, node_class(l, j)));
        if l <= lv {
            lemma_select_preserves_class(bs_pre, bs, p, l, node_class(l, j));
        } else {
            // only nodes of level lv + 1 exist beyond; their classes are
            // other splits' children
            if l >= lv + 2 {
                lemma_pow2_mono(lv + 2, l);
                assert(pow2((lv + 2) as nat) == 2 * pow2((lv + 1) as nat)) by {
                    lemma_pow2_adds(1, (lv + 1) as nat);
                    assert(pow2(1) == 2) by {
                        vstd::arithmetic::power2::lemma2_to64();
                    }
                }
                assert(false);
            }
            assert(l == lv + 1);
            assert(j < 2 * mm);
            let c = node_class(l, j);
            vstd::arithmetic::div_mod::lemma_div_is_ordered(j, 2 * mm - 1, 2);
            lemma_div_pair(mm);
            assert(j / 2 < mm) by {
                vstd::arithmetic::div_mod::lemma_div_is_ordered(j, 2 * mm - 1, 2);
                vstd::arithmetic::div_mod::lemma_div_multiples_vanish_fancy(mm - 1, 1, 2);
            }
            assert(c != mm && c != mm + pow2(lv as nat) as int);
            lemma_select_preserves_next_class(bs_pre, bs, p, c);
        }
    } else {
        lemma_flat_new_nodes(l, j, lv, mm, parts_pre.len() as int);
        lemma_div_pair(mm);
        if j == 2 * mm {
            assert(parts[flat_idx(l, j)] == gl);
            assert(node_class(lv + 1, 2 * mm) == mm + pow2(lv as nat) as int);
        } else {
            assert(parts[flat_idx(l, j)] == gr);
            assert(node_class(lv + 1, 2 * mm + 1) == mm);
        }
    }
}

/// The count a stored node contributes to a leaf tally.
pub open spec fn count_of(g: Option<Group>) -> int {
    match g {
        Option::Some(gr) => gr.count as int,
        Option::None => 0,
    }
}

/// The summed counts of the first `j` leaf nodes.
pub open spec fn sum_leaf_counts(parts: Seq<Option<Group>>, depth: int, j: int) -> int
    decreases j,
{
    if j <= 0 {
        0
    } else {
        sum_leaf_counts(parts, depth, j - 1) + count_of(parts[flat_idx(depth, j - 1)])
    }
}

/// The summed member counts of the classes `c0 <= c < c1` of level `l`.
pub open spec fn sum_class_counts(bs: Seq<Boid>, l: int, c0: int, c1: int) -> int
    decreases c1 - c0,
{
    if c1 <= c0 {
        0
    } else {
        sum_class_counts(bs, l, c0, c1 - 1) + class_half(bs, l, c1 - 1).count
    }
}

/// How many agents ended at exactly level `l`.
pub open spec fn count_at_level(bs: Seq<Boid>, l: int) -> int
    decreases bs.len(),
{
    if bs.len() == 0 {
        0
    } else {
        count_at_level(bs.drop_last(), l) + if bs.last().level as int == l {
            1int
        } else {
            0int
        }
    }
}

pub proof fn lemma_class_count_nonneg(bs: Seq<Boid>, l: int, c: int)
    ensures
        0 <= class_half(bs, l, c).count <= bs.len(),
    decreases bs.len(),
{
    if bs.len() > 0 {
        lemma_class_count_nonneg(bs.drop_last(), l, c);
    }
}

proof fn lemma_sum_class_counts_concat(bs: Seq<Boid>, l: int, a: int, b: int, c: int)
    requires
        a <= b <= c,
    ensures
        sum_class_counts(bs, l, a, c) == sum_class_counts(bs, l, a, b) + sum_class_counts(
            bs,
            l,
            b,
            c,
        ),
    decreases c - b,
{
    if b < c {
        lemma_sum_class_counts_concat(bs, l, a, b, c - 1);
    }
}

/// The first `2 t` leaf positions tally the first `t` low classes and
/// the first `t` high classes.
proof fn lemma_leaf_pair_sum(parts: Seq<Option<Group>>, bs: Seq<Boid>, depth: int, t: int)
    requires
        1 <= depth <= 20,
        parts.len() == pow2((depth + 1) as nat) - 1,
        nodes_ok(parts, bs),
        0 <= t <= pow2((depth - 1) as nat),
    ensures
        sum_leaf_counts(parts, depth, 2 * t) == sum_class_counts(bs, depth, 0, t)
            + sum_class_counts(
            bs,
            depth,
            pow2((depth - 1) as nat) as int,
            pow2((depth - 1) as nat) + t,
        ),
    decreases t,
{
    let h = pow2((depth - 1) as nat) as int;
    lemma_pow2_adds(1, (depth - 1) as nat);
    lemma_pow2_adds(1, depth as nat);
    assert(pow2(1) == 2) by {
        vstd::arithmetic::power2::lemma2_to64();
    }
    assert(pow2(depth as nat) == 2 * h);
    if t > 0 {
        lemma_leaf_pair_sum(parts, bs, depth, t - 1);
        lemma_div_pair(t - 1);
        assert(node_class(depth, 2 * t - 2) == t - 1 + h);
        assert(node_class(depth, 2 * t - 1) == t - 1);
        lemma_pow2_small(depth);
        lemma_pow2_mono(depth + 1, 21);
        assert(flat_idx(depth, 2 * t - 1) < parts.len()) by {
            lemma_pow2_adds(1, depth as nat);
        }
        assert(group_matches_class(
            parts[flat_idx(depth, 2 * t - 2)],
            bs,
            depth,
            node_class(depth, 2 * t - 2),
        ));
        assert(group_matches_class(
            parts[flat_idx(depth, 2 * t - 1)],
            bs,
            depth,
            node_class(depth, 2 * t - 1),
        ));
        lemma_class_count_nonneg(bs, depth, t - 1 + h);
        lemma_class_count_nonneg(bs, depth, t - 1);
        assert(count_of(parts[flat_idx(depth, 2 * t - 2)]) == class_half(bs, depth, t - 1
            + h).count);
        assert(count_of(parts[flat_idx(depth, 2 * t - 1)]) == class_half(bs, depth, t - 1).count);
        assert(sum_leaf_counts(parts, depth, 2 * t) == sum_leaf_counts(parts, depth, 2 * t - 1)
            + count_of(parts[flat_idx(depth, 2 * t - 1)]));
        assert(sum_leaf_counts(parts, depth, 2 * t - 1) == sum_leaf_counts(parts, depth, 2 * t - 2)
            + count_of(parts[flat_idx(depth, 2 * t - 2)]));
        assert(sum_class_counts(bs, depth, 0, t) == sum_class_counts(bs, depth, 0, t - 1)
            + class_half(bs, depth, t - 1).count);
        assert(sum_class_counts(bs, depth, h, h + t) == sum_class_counts(bs, depth, h, h + t - 1)
            + class_half(bs, depth, h + t - 1).count);
    }
}

/// Removing the last agent removes exactly its own contribution from a
/// range of class tallies.
proof fn lemma_sum_class_counts_drop(bs: Seq<Boid>, l: int, c0: int, c1: int)
    requires
        bs.len() > 0,
    ensures
        sum_class_counts(bs, l, c0, c1) == sum_class_counts(bs.drop_last(), l, c0, c1) + if bs.last().level
            as int >= l && c0 <= (bs.last().mask as int) % (pow2(l as nat) as int) < c1 {
            1int
        } else {
            0int
        },
    decreases c1 - c0,
{
    if c1 > c0 {
        lemma_sum_class_counts_drop(bs, l, c0, c1 - 1);
    }
}

proof fn lemma_sum_class_counts_empty(bs: Seq<Boid>, l: int, c0: int, c1: int)
    requires
        bs.len() == 0,
    ensures
        sum_class_counts(bs, l, c0, c1) == 0,
    decreases c1 - c0,
{
    if c1 > c0 {
        lemma_sum_class_counts_empty(bs, l, c0, c1 - 1);
    }
}

/// Summed over all its classes, a level tallies exactly the agents that
/// ended on it.
proof fn lemma_classes_tally_level(bs: Seq<Boid>, l: int)
    requires
        0 <= l <= 30,
        tags_ok(bs, l),
    ensures
        sum_class_counts(bs, l, 0, pow2(l as nat) as int) == count_at_level(bs, l),
    decreases bs.len(),
{
    lemma_pow2_small(l);
    if bs.len() == 0 {
        lemma_sum_class_counts_empty(bs, l, 0, pow2(l as nat) as int);
    }
    if bs.len() > 0 {
        assert(tags_ok(bs.drop_last(), l)) by {
            assert(forall|i: int|
                0 <= i < bs.len() - 1 ==> bs.drop_last()[i] == #[trigger] bs[i]);
        }
        lemma_classes_tally_level(bs.drop_last(), l);
        lemma_sum_class_counts_drop(bs, l, 0, pow2(l as nat) as int);
        let b = bs.last();
        assert(bs[bs.len() - 1] == b);
        assert(crate::boid::tag_valid(b) && b.level as int <= l);
        if b.level as int == l {
            lemma_small_mod(b.mask as nat, pow2(l as nat));
            assert((b.mask as int) % (pow2(l as nat) as int) == b.mask as int);
            assert(0 <= (b.mask as int) && (b.mask as int) < pow2(l as nat) as int);
        }
        assert(count_at_level(bs, l) == count_at_level(bs.drop_last(), l) + if b.level as int
            == l {
            1int
        } else {
            0int
        });
    }
}

proof fn lemma_count_at_level_le(bs: Seq<Boid>, l: int)
    ensures
        0 <= count_at_level(bs, l) <= bs.len(),
        (forall|i: int| 0 <= i < bs.len() ==> (#[trigger] bs[i]).level as int == l)
            ==> count_at_level(bs, l) == bs.len(),
    decreases bs.len(),
{
    if bs.len() > 0 {
        lemma_count_at_level_le(bs.drop_last(), l);
        assert(forall|i: int| 0 <= i < bs.len() - 1 ==> bs.drop_last()[i] == #[trigger] bs[i]);
    }
}

/// Conservation of members through the tree: the present leaf groups'
/// counts sum to the number of agents that reached the full depth —
/// never more than the population, and exactly the population when no
/// agent was stopped by a pruned node.
pub proof fn lemma_leaf_counts_total(parts: Seq<Option<Group>>, bs: Seq<Boid>, depth: int)
    requires
        1 <= depth <= 20,
        parts.len() == pow2((depth + 1) as nat) - 1,
        nodes_ok(parts, bs),
        tags_ok(bs, depth),
    ensures
        sum_leaf_counts(parts, depth, pow2(depth as nat) as int) == count_at_level(bs, depth),
        0 <= count_at_level(bs, depth) <= bs.len(),
        (forall|i: int| 0 <= i < bs.len() ==> (#[trigger] bs[i]).level as int == depth)
            ==> sum_leaf_counts(parts, depth, pow2(depth as nat) as int) == bs.len(),
{
    let h = pow2((depth - 1) as nat) as int;
    lemma_pow2_adds(1, (depth - 1) as nat);
    assert(pow2(1) == 2) by {
        vstd::arithmetic::power2::lemma2_to64();
    }
    assert(pow2(depth as nat) == 2 * h);
    lemma_leaf_pair_sum(parts, bs, depth, h);
    lemma_sum_class_counts_concat(bs, depth, 0, h, 2 * h);
    lemma_classes_tally_level(bs, depth);
    lemma_count_at_level_le(bs, depth);
}

/// When no node is pruned — every internal node of the tree holds at
/// least one member — no agent ever meets an absent plane lookup, so
/// every agent reaches the full depth and lands in exactly one leaf
/// partition: the leaf counts tally the whole population.
pub proof fn lemma_unpruned_counts_whole_population(
    parts: Seq<Option<Group>>,
    bs: Seq<Boid>,
    depth: int,
)
    requires
        1 <= depth <= 20,
        parts.len() == pow2((depth + 1) as nat) - 1,
        nodes_ok(parts, bs),
        tags_ok(bs, depth),
        stalls_ok(parts, bs, depth, 0),
        forall|l: int, j: int|
            0 <= l < depth && 0 <= j < pow2(l as nat) ==> #[trigger] parts[flat_idx(l, j)]
                is Some,
    ensures
        forall|i: int| 0 <= i < bs.len() ==> (#[trigger] bs[i]).level as int == depth,
        sum_leaf_counts(parts, depth, pow2(depth as nat) as int) == bs.len(),
        sum_group_counts(present_leaves(bs, depth, pow2(depth as nat) as int)) == bs.len(),
{
    assert forall|i: int| 0 <= i < bs.len() implies (#[trigger] bs[i]).level as int == depth by {
        let b = bs[i];
        if (b.level as int) < depth {
            assert(crate::boid::tag_valid(b));
            assert(parts[flat_idx(b.level as int, b.mask as int)] is None);
            assert(parts[flat_idx(b.level as int, b.mask as int)] is Some);
        }
    }
    lemma_leaf_counts_total(parts, bs, depth);
    lemma_present_sum(parts, bs, depth, pow2(depth as nat) as int);
}

/// The group value a class's statistics denote, as a concrete record.
pub open spec fn mk_group(h: HalfV) -> Group
    recommends
        0 < h.count,
{
    Group {
        center: crate::vec3::Vec3 {
            x: crate::math::tdiv(h.pos.x, h.count) as i64,
            y: crate::math::tdiv(h.pos.y, h.count) as i64,
            z: crate::math::tdiv(h.pos.z, h.count) as i64,
        },
        heading: crate::vec3::Vec3 {
            x: crate::math::tdiv(h.heading.x, h.count) as i64,
            y: crate::math::tdiv(h.heading.y, h.count) as i64,
            z: crate::math::tdiv(h.heading.z, h.count) as i64,
        },
        count: h.count as u32,
    }
}

/// A group is determined by its mathematical value.
pub proof fn lemma_group_determined(g: Group, h: HalfV)
    requires
        g@ == crate::accum::group_v(h),
    ensures
        g == mk_group(h),
{
}

/// The present leaf groups among the first `j` leaf positions, in leaf
/// order.
pub open spec fn present_leaves(bs: Seq<Boid>, depth: int, j: int) -> Seq<Group>
    decreases j,
{
    if j <= 0 {
        Seq::<Group>::empty()
    } else {
        let pre = present_leaves(bs, depth, j - 1);
        let h = class_half(bs, depth, node_class(depth, j - 1));
        if h.count > 0 {
            pre.push(mk_group(h))
        } else {
            pre
        }
    }
}

/// The summed member counts of a group list.
pub open spec fn sum_group_counts(gs: Seq<Group>) -> int
    decreases gs.len(),
{
    if gs.len() == 0 {
        0
    } else {
        sum_group_counts(gs.drop_last()) + gs.last().count
    }
}

/// The present leaves tally the same members as all the leaf nodes:
/// absent ones contribute nothing.
pub proof fn lemma_present_sum(parts: Seq<Option<Group>>, bs: Seq<Boid>, depth: int, j: int)
    requires
        1 <= depth <= 20,
        parts.len() == pow2((depth + 1) as nat) - 1,
        nodes_ok(parts, bs),
        0 <= j <= pow2(depth as nat),
    ensures
        sum_group_counts(present_leaves(bs, depth, j)) == sum_leaf_counts(parts, depth, j),
    decreases j,
{
    if j > 0 {
        lemma_present_sum(parts, bs, depth, j - 1);
        let c = node_class(depth, j - 1);
        let h = class_half(bs, depth, c);
        lemma_class_count_nonneg(bs, depth, c);
        assert(flat_idx(depth, j - 1) < parts.len()) by {
            lemma_pow2_adds(1, depth as nat);
            assert(pow2(1) == 2) by {
                vstd::arithmetic::power2::lemma2_to64();
            }
        }
        assert(group_matches_class(parts[flat_idx(depth, j - 1)], bs, depth, c));
        if h.count > 0 {
            let g = parts[flat_idx(depth, j - 1)].unwrap();
            lemma_group_determined(g, h);
            assert(present_leaves(bs, depth, j).drop_last() =~= present_leaves(bs, depth, j - 1));
        }
    }
}

} // verus!
