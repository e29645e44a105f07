use boids::accum::{Accumulator, AccumulatorHalf};
use boids::sim::motion_params_from_settings;
use boids::vec3::Vec3;
use boids::{Boid, Settings, SimError, Simulation, LOCAL_X, SCALE};

fn zero_slot() -> Accumulator {
    Accumulator {
        left: AccumulatorHalf { pos: Vec3 { x: 0, y: 0, z: 0 }, count: 0, heading: Vec3 { x: 0, y: 0, z: 0 } },
        right: AccumulatorHalf { pos: Vec3 { x: 0, y: 0, z: 0 }, count: 0, heading: Vec3 { x: 0, y: 0, z: 0 } },
    }
}

#[test]
fn default_settings_values() {
    let s = Settings::default();
    assert_eq!(s.work_groups, 40);
    assert_eq!(s.tree_depth, 6);
    assert_eq!(s.speed, 2621);
    assert_eq!(s.dist_thresh, 8 * SCALE);
    assert_eq!(s.cohere, SCALE / 2);
    assert_eq!(s.steer, 7864);
    assert_eq!(s.parallel, 7864);
}

#[test]
fn new_rejects_zero_work_groups() {
    let s = Settings { work_groups: 0, ..Settings::default() };
    assert_eq!(Simulation::new(s).err().unwrap(), SimError::InvalidWorkGroups);
}

#[test]
fn new_rejects_zero_tree_depth() {
    let s = Settings { tree_depth: 0, ..Settings::default() };
    assert_eq!(Simulation::new(s).err().unwrap(), SimError::InvalidTreeDepth);
}

#[test]
fn new_rejects_oversized_tree_depth() {
    let s = Settings { tree_depth: 21, ..Settings::default() };
    assert_eq!(Simulation::new(s).err().unwrap(), SimError::InvalidTreeDepth);
}

#[test]
fn new_rejects_huge_parameters() {
    let s = Settings { speed: 100 * SCALE, ..Settings::default() };
    assert_eq!(Simulation::new(s).err().unwrap(), SimError::ParameterOutOfRange);
}

#[test]
fn error_descriptions() {
    assert_eq!(SimError::InvalidWorkGroups.describe(), "work_groups must be between 1 and 65536");
    assert_eq!(SimError::InvalidTreeDepth.describe(), "tree_depth must be between 1 and 20");
    assert_eq!(
        SimError::ParameterOutOfRange.describe(),
        "behaviour parameters must lie within 16 units"
    );
}

#[test]
fn new_populates_randomized_cube() {
    let s = Settings { work_groups: 2, tree_depth: 3, ..Settings::default() };
    let mut sim = Simulation::new(s).unwrap();
    let boids = sim.boids();
    assert_eq!(boids.len(), (2 * LOCAL_X) as usize);
    let lim = 10 * SCALE;
    for b in boids.iter() {
        assert_eq!(b.level, 0);
        assert_eq!(b.mask, 0);
        assert!(b.pos.x >= -lim && b.pos.x < lim);
        assert!(b.pos.y >= -lim && b.pos.y < lim);
        assert!(b.pos.z >= -lim && b.pos.z < lim);
        assert!(b.heading.x.abs() <= SCALE);
        assert!(b.heading.y.abs() <= SCALE);
        assert!(b.heading.z.abs() <= SCALE);
    }
    // the generator produced actual samples, not one repeated value
    let first = boids[0].pos;
    assert!(boids.iter().any(|b| b.pos != first));
    assert!(sim.positions_within_limit());
    let groups = sim.step();
    let total: u32 = groups.iter().map(|g| g.count).sum();
    assert!(total <= 2 * LOCAL_X);
    // stepping again is allowed as long as the positions stay in range
    assert!(sim.positions_within_limit());
    let groups2 = sim.step();
    let total2: u32 = groups2.iter().map(|g| g.count).sum();
    assert!(total2 <= 2 * LOCAL_X);
}

#[test]
fn default_scale_steps_stay_consistent() {
    let mut sim = Simulation::new(Settings::default()).unwrap();
    let n = 40 * LOCAL_X;
    for _ in 0..3 {
        assert!(sim.positions_within_limit());
        let groups = sim.step();
        let total: u32 = groups.iter().map(|g| g.count).sum();
        assert!(total <= n);
        for g in groups.iter() {
            assert!(g.count >= 1);
        }
        for b in sim.boids().iter() {
            assert!(b.level >= 1 && b.level <= 6);
            assert!(b.mask < (1 << b.level));
        }
    }
}

#[test]
fn motion_params_take_settings_weights() {
    let s = Settings::default();
    let mp = motion_params_from_settings(&s, 7);
    assert_eq!(mp.n_groups, 7);
    assert_eq!(mp.speed, s.speed);
    assert_eq!(mp.dist_thresh, s.dist_thresh);
    assert_eq!(mp.cohere, s.cohere);
    assert_eq!(mp.steer, s.steer);
    assert_eq!(mp.parallel, s.parallel);
}

/// Sixteen agents in two clusters, tree depth 1, one step, with a zero
/// cohesion radius (so the cohesion strength is zero) and a zero
/// steering weight: each resulting heading is the normalization of the
/// old heading plus the alignment weight times the mean group heading,
/// checkable by hand.
#[test]
fn end_to_end_sixteen_agents_depth_one() {
    let d = 5 * SCALE;
    let settings = Settings {
        work_groups: 1,
        speed: 2621,
        dist_thresh: 0,
        cohere: 0,
        steer: 0,
        parallel: SCALE / 2,
        tree_depth: 1,
    };
    let mut boids: Vec<Boid> = Vec::new();
    for _ in 0..8 {
        boids.push(Boid {
            pos: Vec3 { x: d, y: 0, z: 0 },
            level: 0,
            heading: Vec3 { x: 0, y: SCALE, z: 0 },
            mask: 0,
        });
    }
    for _ in 0..8 {
        boids.push(Boid {
            pos: Vec3 { x: -d, y: 0, z: 0 },
            level: 0,
            heading: Vec3 { x: 0, y: SCALE, z: 0 },
            mask: 0,
        });
    }
    let acc = vec![zero_slot(); 16];
    let mut sim = Simulation { settings, n_boids: 16, boids, acc };

    let groups = sim.step();

    // the mean heading +Y derives a +X plane normal: one group per
    // cluster, every agent accounted for
    assert_eq!(groups.len(), 2);
    assert_eq!(groups[0].count, 8);
    assert_eq!(groups[1].count, 8);
    assert_eq!(groups[0].center, Vec3 { x: d, y: 0, z: 0 });
    assert_eq!(groups[1].center, Vec3 { x: -d, y: 0, z: 0 });
    assert_eq!(groups[0].heading, Vec3 { x: 0, y: SCALE, z: 0 });

    // by hand: mean group heading is (0, 1, 0); candidate heading is
    // (0, 1, 0) + 0.5 * (0, 1, 0) = (0, 1.5, 0), which normalizes back
    // to (0, 1, 0); each position advances by speed along it
    for b in sim.boids().iter() {
        assert_eq!(b.heading, Vec3 { x: 0, y: SCALE, z: 0 });
        assert_eq!(b.pos.y, 2621);
        assert_eq!(b.pos.z, 0);
        assert_eq!(b.level, 1);
    }
    assert_eq!(sim.boids()[0].pos.x, d);
    assert_eq!(sim.boids()[0].mask, 1);
    assert_eq!(sim.boids()[15].pos.x, -d);
    assert_eq!(sim.boids()[15].mask, 0);

    let total: u32 = groups.iter().map(|g| g.count).sum();
    assert_eq!(total, 16);
}
