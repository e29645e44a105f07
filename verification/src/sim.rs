use vstd::prelude::*;
use vstd::arithmetic::power2::pow2;
use crate::accum::{Accumulator, Group};
use crate::boid::{boid_bounded, Boid};
use crate::motion::{new_heading_of, MotionParams};
use crate::tree::{
    advances_ok, build_tree, class_half, count_at_level, flat_idx, group_matches_class,
    node_class, nodes_ok, present_leaves, sides_ok, stalls_ok, sum_group_counts, tags_ok,
};
use crate::vec3::{v_add, v_bounded, v_scale_fp};
use crate::{LOCAL_X, SCALE};

verus! {

/// The simulation's configuration: how many work groups of agents to
/// create, the tree depth, and the behaviour weights, in fixed point
/// (65536 is 1.0).
#[derive(Clone, Copy, PartialEq, Eq, Structural, Debug)]
pub struct Settings {
    pub work_groups: u32,
    pub speed: i64,
    pub dist_thresh: i64,
    pub cohere: i64,
    pub steer: i64,
    pub parallel: i64,
    pub tree_depth: u32,
}

/// The documented defaults: 40 work groups, depth 6, speed 0.04,
/// cohesion radius 8, cohesion 0.5, steering 0.12, alignment 0.12.
impl Default for Settings {
    fn default() -> (s: Settings)
        ensures
            s == (Settings {
                work_groups: 40u32,
                speed: 2621i64,
                dist_thresh: 524288i64,
                cohere: 32768i64,
                steer: 7864i64,
                parallel: 7864i64,
                tree_depth: 6u32,
            }),
    {
        Settings {
            work_groups: 40,
            speed: 2621,
            dist_thresh: 524288,
            cohere: 32768,
            steer: 7864,
            parallel: 7864,
            tree_depth: 6,
        }
    }
}

/// The behaviour parameters fit the fixed-point arithmetic: every
/// weight within sixteen units.
pub open spec fn settings_params_ok(s: Settings) -> bool {
    &&& -0x10_0000 <= s.speed <= 0x10_0000
    &&& -0x10_0000 <= s.dist_thresh <= 0x10_0000
    &&& -0x10_0000 <= s.cohere <= 0x10_0000
    &&& -0x10_0000 <= s.steer <= 0x10_0000
    &&& -0x10_0000 <= s.parallel <= 0x10_0000
}

/// Why a configuration was rejected at construction.
#[derive(Clone, Copy, PartialEq, Eq, Structural, Debug)]
pub enum SimError {
    InvalidWorkGroups,
    InvalidTreeDepth,
    ParameterOutOfRange,
}

impl SimError {
    /// A short description of the failure.
    pub fn describe(&self) -> (m: &'static str)
        ensures
            *self is InvalidWorkGroups ==> m@ == "work_groups must be between 1 and 65536"@,
            *self is InvalidTreeDepth ==> m@ == "tree_depth must be between 1 and 20"@,
            *self is ParameterOutOfRange ==> m@
                == "behaviour parameters must lie within 16 units"@,
    {
        match self {
            SimError::InvalidWorkGroups => "work_groups must be between 1 and 65536",
            SimError::InvalidTreeDepth => "tree_depth must be between 1 and 20",
            SimError::ParameterOutOfRange => "behaviour parameters must lie within 16 units",
        }
    }
}

/// The behaviour parameters of one motion pass, taken from the
/// configuration, with the number of present leaf groups filled in.
pub fn motion_params_from_settings(settings: &Settings, n_groups: u32) -> (mp: MotionParams)
    ensures
        mp == (MotionParams {
            n_groups: n_groups,
            speed: settings.speed,
            dist_thresh: settings.dist_thresh,
            cohere: settings.cohere,
            steer: settings.steer,
            parallel: settings.parallel,
        }),
{
    MotionParams {
        n_groups: n_groups,
        dist_thresh: settings.dist_thresh,
        cohere: settings.cohere,
        speed: settings.speed,
        steer: settings.steer,
        parallel: settings.parallel,
    }
}

/// The tag state the step's tree construction left behind, combined
/// with the coordinates it read: the population as the leaf groups saw
/// it, before the motion pass moved anyone.
pub open spec fn tagged_view(before: Seq<Boid>, after: Seq<Boid>) -> Seq<Boid> {
    Seq::new(
        before.len(),
        |i: int|
            Boid {
                pos: before[i].pos,
                heading: before[i].heading,
                level: after[i].level,
                mask: after[i].mask,
            },
    )
}

/// The node list some step's tree construction stored, tying the tags
/// it assigned to the separating-plane geometry. Every node holds
/// exactly its class's statistics; an agent stopped short of the full
/// depth exactly where its plane lookup met an absent node, descended
/// exactly where it met a present one, and every recorded side is the
/// geometric one against the stored plane. When no internal node is
/// absent, the groups' counts tally the whole population.
pub open spec fn groups_from_tree(
    parts: Seq<Option<Group>>,
    tagged: Seq<Boid>,
    d: int,
    groups: Seq<Group>,
    n: int,
) -> bool {
    &&& parts.len() == pow2((d + 1) as nat) - 1
    &&& nodes_ok(parts, tagged)
    &&& stalls_ok(parts, tagged, d, 0)
    &&& advances_ok(parts, tagged)
    &&& sides_ok(parts, tagged)
    &&& groups == present_leaves(tagged, d, pow2(d as nat) as int)
    &&& ((forall|l: int, j: int|
        0 <= l < d && 0 <= j < pow2(l as nat) ==> #[trigger] parts[flat_idx(l, j)] is Some)
        ==> sum_group_counts(groups) == n)
}

/// The simulation: the canonical agent population, its per-agent
/// accumulator buffer, and the configuration it was built with.
pub struct Simulation {
    pub settings: Settings,
    pub n_boids: u32,
    pub boids: Vec<Boid>,
    pub acc: Vec<Accumulator>,
}

impl Simulation {
    /// Structural well-formedness: population sized by the work group
    /// count, buffers matching, configuration within range, and every
    /// heading within one unit.
    pub open spec fn wf(&self) -> bool {
        &&& 1 <= self.settings.work_groups <= 0x1_0000
        &&& 1 <= self.settings.tree_depth <= 20
        &&& settings_params_ok(self.settings)
        &&& self.n_boids == self.settings.work_groups * LOCAL_X
        &&& self.boids@.len() == self.n_boids
        &&& self.acc@.len() == self.n_boids
        &&& forall|i: int|
            0 <= i < self.boids@.len() ==> v_bounded(
                (#[trigger] self.boids@[i]).heading@,
                SCALE as int,
            )
    }

    /// Every agent position within `b` of the origin, per component.
    pub open spec fn positions_bounded(&self, b: int) -> bool {
        forall|i: int|
            0 <= i < self.boids@.len() ==> v_bounded((#[trigger] self.boids@[i]).pos@, b)
    }

    /// Creates the simulation: validates the configuration and
    /// populates the cube of half-side 10 with randomized agents.
    pub fn new(settings: Settings) -> (r: Result<Simulation, SimError>)
        ensures
            !(1 <= settings.work_groups <= 0x1_0000) ==> r == Result::<Simulation, SimError>::Err(
                SimError::InvalidWorkGroups,
            ),
            (1 <= settings.work_groups <= 0x1_0000) && !(1 <= settings.tree_depth <= 20) ==> r
                == Result::<Simulation, SimError>::Err(SimError::InvalidTreeDepth),
            (1 <= settings.work_groups <= 0x1_0000) && (1 <= settings.tree_depth <= 20)
                && !settings_params_ok(settings) ==> r == Result::<Simulation, SimError>::Err(
                SimError::ParameterOutOfRange,
            ),
            r is Ok <==> ((1 <= settings.work_groups <= 0x1_0000) && (1 <= settings.tree_depth
                <= 20) && settings_params_ok(settings)),
            r matches Ok(sim) ==> {
                &&& sim.wf()
                &&& sim.settings == settings
                &&& sim.n_boids == settings.work_groups * LOCAL_X
                &&& sim.positions_bounded(10 * SCALE as int)
                &&& forall|i: int|
                    0 <= i < sim.boids@.len() ==> (#[trigger] sim.boids@[i]).level == 0
                        && sim.boids@[i].mask == 0
            },
    {
        if !(1 <= settings.work_groups && settings.work_groups <= 0x1_0000) {
            return Err(SimError::InvalidWorkGroups);
        }
        if !(1 <= settings.tree_depth && settings.tree_depth <= 20) {
            return Err(SimError::InvalidTreeDepth);
        }
        if settings.speed < -0x10_0000 || settings.speed > 0x10_0000 || settings.dist_thresh
            < -0x10_0000 || settings.dist_thresh > 0x10_0000 || settings.cohere < -0x10_0000
            || settings.cohere > 0x10_0000 || settings.steer < -0x10_0000 || settings.steer
            > 0x10_0000 || settings.parallel < -0x10_0000 || settings.parallel > 0x10_0000 {
            return Err(SimError::ParameterOutOfRange);
        }
        let n_boids: u32 = settings.work_groups * LOCAL_X;
        let boids: Vec<Boid> = crate::rng::random_boids(n_boids as usize, 10 * SCALE);
        let mut acc: Vec<Accumulator> = Vec::new();
        let mut i: usize = 0;
        while i < n_boids as usize
            invariant
                acc@.len() == i,
                0 <= i <= n_boids as usize,
            decreases n_boids as usize - i,
        {
            acc.push(crate::accum::zero_slot());
            i = i + 1;
        }
        Ok(Simulation { settings, n_boids, boids, acc })
    }

    /// Whether every position is still inside the coordinate range the
    /// stepping arithmetic is proved for; a caller checks this before
    /// stepping again.
    pub fn positions_within_limit(&self) -> (b: bool)
        ensures
            b == self.positions_bounded(0x100_0000_0000),
    {
        let n: usize = self.boids.len();
        let mut i: usize = 0;
        let lim: i64 = 0x100_0000_0000;
        while i < n
            invariant
                n == self.boids@.len(),
                0 <= i <= n,
                lim == 0x100_0000_0000,
                forall|k: int|
                    0 <= k < i ==> v_bounded((#[trigger] self.boids@[k]).pos@, 0x100_0000_0000),
            decreases n - i,
        {
            let p = self.boids[i].pos;
            if p.x < -lim || p.x > lim || p.y < -lim || p.y > lim || p.z < -lim || p.z > lim {
                return false;
            }
            i = i + 1;
        }
        true
    }

    /// Read access to the most recently computed population.
    pub fn boids(&self) -> (r: &Vec<Boid>)
        ensures
            r@ == self.boids@,
    {
        &self.boids
    }

    /// One simulation step: builds the partition tree from the current
    /// positions, hands the present leaf groups to the motion pass, and
    /// returns them. The returned groups are exactly the statistics of
    /// the partition classes the step's tags spell out, their counts
    /// tally every agent that reached the full depth — the whole
    /// population when no node was pruned — and every agent moves as
    /// the motion rule says against that group list. A node list
    /// witnessing the construction ties the tags to the geometry: each
    /// agent descended exactly where its plane lookup met a present
    /// node, and each recorded side is the geometric one against that
    /// node's plane (`groups_from_tree`).
    pub fn step(&mut self) -> (groups: Vec<Group>)
        requires
            old(self).wf(),
            old(self).positions_bounded(0x100_0000_0000),
        ensures
            final(self).wf(),
            final(self).settings == old(self).settings,
            final(self).n_boids == old(self).n_boids,
            final(self).boids@.len() == old(self).boids@.len(),
            final(self).positions_bounded(0x100_0000_0000int + 0x10_0000),
            ({
                let tagged = tagged_view(old(self).boids@, final(self).boids@);
                let d = old(self).settings.tree_depth as int;
                let mp = MotionParams {
                    n_groups: groups@.len() as u32,
                    speed: old(self).settings.speed,
                    dist_thresh: old(self).settings.dist_thresh,
                    cohere: old(self).settings.cohere,
                    steer: old(self).settings.steer,
                    parallel: old(self).settings.parallel,
                };
                &&& tags_ok(tagged, d)
                &&& groups@ == present_leaves(tagged, d, pow2(d as nat) as int)
                &&& sum_group_counts(groups@) == count_at_level(tagged, d)
                &&& 0 <= sum_group_counts(groups@) <= old(self).n_boids
                &&& ((forall|i: int|
                    0 <= i < tagged.len() ==> (#[trigger] tagged[i]).level as int == d)
                    ==> sum_group_counts(groups@) == old(self).n_boids)
                &&& (forall|i: int|
                    0 <= i < tagged.len() ==> {
                        let nb = #[trigger] final(self).boids@[i];
                        &&& nb.heading@ == new_heading_of(tagged[i], groups@, mp)
                        &&& nb.pos@ == v_add(
                            old(self).boids@[i].pos@,
                            v_scale_fp(nb.heading@, mp.speed as int),
                        )
                    })
                &&& exists|parts: Seq<Option<Group>>|
                    groups_from_tree(parts, tagged, d, groups@, old(self).n_boids as int)
            }),
    {
        let depth: u32 = self.settings.tree_depth;
        let ghost bs0 = self.boids@;
        proof {
            assert forall|i: int| 0 <= i < bs0.len() implies boid_bounded(
                #[trigger] bs0[i],
                0x100_0000_0000,
            ) by {}
        }
        let parts: Vec<Option<Group>> = build_tree(&mut self.boids, &mut self.acc, depth);
        let ghost bs2 = self.boids@;
        let ghost d = depth as int;
        proof {
            vstd::arithmetic::power2::lemma2_to64();
            crate::tree::lemma_pow2_mono(d + 1, 21);
            assert(pow2(21) == 0x200_000);
            vstd::arithmetic::power2::lemma_pow2_adds(1, depth as nat);
            assert(pow2((d + 1) as nat) == 2 * pow2(depth as nat));
            assert forall|i: int| 0 <= i < bs2.len() implies boid_bounded(
                #[trigger] bs2[i],
                0x100_0000_0000,
            ) by {
                assert(bs2[i].pos == bs0[i].pos && bs2[i].heading == bs0[i].heading);
            }
        }
        let base: usize = parts.len() / 2;
        let nl: usize = base + 1;
        proof {
            let bigl = pow2(depth as nat) as int;
            vstd::arithmetic::div_mod::lemma_div_multiples_vanish_fancy(bigl - 1, 1, 2);
            assert(2 * (bigl - 1) + 1 == parts@.len());
            assert(base as int == bigl - 1);
        }
        let mut out: Vec<Group> = Vec::new();
        let mut j: usize = 0;
        while j < nl
            invariant
                0 <= j <= nl,
                nl as int == pow2(depth as nat),
                base as int == pow2(depth as nat) - 1,
                parts@.len() == 2 * (nl as int) - 1,
                nl <= 0x100_000,
                1 <= depth <= 20,
                d == depth as int,
                parts@.len() == pow2((depth + 1) as nat) - 1,
                nodes_ok(parts@, bs2),
                bs2.len() <= 0x10_0000,
                forall|i: int| 0 <= i < bs2.len() ==> boid_bounded(#[trigger] bs2[i], 0x100_0000_0000),
                out@ == present_leaves(bs2, d, j as int),
                crate::motion::groups_bounded(out@, 0x100_0000_0000),
                out@.len() <= j,
                self.boids@ == bs2,
                self.acc@.len() == old(self).acc@.len(),
            decreases nl - j,
        {
            let slot: Option<Group> = parts[base + j];
            proof {
                let c = node_class(d, j as int);
                assert(flat_idx(d, j as int) == (base + j) as int);
                assert(group_matches_class(parts@[flat_idx(d, j as int)], bs2, d, c));
                crate::tree::lemma_class_count_nonneg(bs2, d, c);
                if parts@[flat_idx(d, j as int)] is Some {
                    crate::tree::lemma_group_determined(
                        parts@[flat_idx(d, j as int)].unwrap(),
                        class_half(bs2, d, c),
                    );
                    crate::tree::lemma_group_bounded(bs2, d, c, 0x100_0000_0000);
                }
            }
            match slot {
                Some(g) => {
                    out.push(g);
                },
                None => {},
            }
            j = j + 1;
        }
        let mp: MotionParams = motion_params_from_settings(&self.settings, out.len() as u32);
        proof {
            crate::tree::lemma_present_sum(parts@, bs2, d, pow2(depth as nat) as int);
            crate::tree::lemma_leaf_counts_total(parts@, bs2, d);
        }
        crate::motion::motion_pass(&mut self.boids, &out, &mp);
        proof {
            let tagged = tagged_view(bs0, self.boids@);
            assert forall|i: int| 0 <= i < bs2.len() implies tagged[i] == #[trigger] bs2[i] by {
                assert(self.boids@[i].level == bs2[i].level && self.boids@[i].mask == bs2[i].mask);
                assert(bs2[i].pos == bs0[i].pos && bs2[i].heading == bs0[i].heading);
            }
            assert(tagged =~= bs2);
            let nn = old(self).n_boids as int;
            if forall|l: int, j: int|
                0 <= l < d && 0 <= j < pow2(l as nat) ==> #[trigger] parts@[flat_idx(l, j)]
                    is Some {
                crate::tree::lemma_unpruned_counts_whole_population(parts@, bs2, d);
            }
            assert(groups_from_tree(parts@, tagged, d, out@, nn));
        }
        out
    }
}

} // verus!
