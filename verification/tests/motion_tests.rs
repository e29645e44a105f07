use boids::motion::motion_pass;
use boids::vec3::Vec3;
use boids::{Boid, Group, MotionParams, SCALE};

/// An agent whose alignment pull exactly cancels its own heading: the
/// candidate heading is the zero vector, whose normalization is
/// undefined, so the update is discarded and the heading kept.
#[test]
fn cancelled_update_keeps_heading() {
    let mut boids = vec![Boid {
        pos: Vec3 { x: 5 * SCALE, y: 0, z: 0 },
        level: 1,
        heading: Vec3 { x: 0, y: 0, z: SCALE },
        mask: 1,
    }];
    // one group centred on the agent itself, heading exactly opposite
    let groups = vec![Group {
        center: Vec3 { x: 5 * SCALE, y: 0, z: 0 },
        heading: Vec3 { x: 0, y: 0, z: -SCALE },
        count: 1,
    }];
    let mp = MotionParams {
        n_groups: 1,
        speed: 2621,
        dist_thresh: 0,
        cohere: 0,
        steer: SCALE / 2,
        parallel: SCALE,
    };
    motion_pass(&mut boids, &groups, &mp);

    // heading unchanged, and no poisoned components anywhere
    assert_eq!(boids[0].heading, Vec3 { x: 0, y: 0, z: SCALE });
    // the position still advances along the kept heading
    assert_eq!(boids[0].pos, Vec3 { x: 5 * SCALE, y: 0, z: 2621 });
    assert_eq!(boids[0].level, 1);
    assert_eq!(boids[0].mask, 1);
}

/// With no group present the heading is unchanged and the agent flies
/// straight on.
#[test]
fn no_groups_flies_straight() {
    let mut boids = vec![Boid {
        pos: Vec3 { x: 0, y: 0, z: 0 },
        level: 0,
        heading: Vec3 { x: SCALE, y: 0, z: 0 },
        mask: 0,
    }];
    let groups: Vec<Group> = Vec::new();
    let mp = MotionParams {
        n_groups: 0,
        speed: SCALE,
        dist_thresh: 8 * SCALE,
        cohere: SCALE / 2,
        steer: 7864,
        parallel: 7864,
    };
    motion_pass(&mut boids, &groups, &mp);
    assert_eq!(boids[0].heading, Vec3 { x: SCALE, y: 0, z: 0 });
    assert_eq!(boids[0].pos, Vec3 { x: SCALE, y: 0, z: 0 });
}

/// Pure alignment toward a distant group: the cohesion strength is zero
/// at distance, the cross blend is scaled by a zero steering weight,
/// and the new heading is the normalized sum of the old heading and the
/// weighted mean group heading.
#[test]
fn alignment_blends_headings() {
    let mut boids = vec![Boid {
        pos: Vec3 { x: 0, y: 0, z: 0 },
        level: 1,
        heading: Vec3 { x: 0, y: SCALE, z: 0 },
        mask: 0,
    }];
    let groups = vec![Group {
        center: Vec3 { x: 100 * SCALE, y: 0, z: 0 },
        heading: Vec3 { x: 0, y: 0, z: 3 * SCALE },
        count: 4,
    }];
    let mp = MotionParams {
        n_groups: 1,
        speed: 0,
        dist_thresh: 0,
        cohere: 0,
        steer: 0,
        parallel: SCALE,
    };
    motion_pass(&mut boids, &groups, &mp);
    // candidate = (0, SCALE, SCALE); |c| = isqrt(2 * SCALE * SCALE) = 92681
    // components: SCALE * SCALE / 92681 = 46341
    assert_eq!(boids[0].heading, Vec3 { x: 0, y: 46341, z: 46341 });
    assert_eq!(boids[0].pos, Vec3 { x: 0, y: 0, z: 0 });
}
