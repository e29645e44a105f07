use boids::accum::{reduce_in_place, Accumulator, AccumulatorHalf};
use boids::select::{select_pass, SelectParams};
use boids::vec3::Vec3;
use boids::{Boid, SCALE};

fn zero_slot() -> Accumulator {
    Accumulator {
        left: AccumulatorHalf { pos: Vec3 { x: 0, y: 0, z: 0 }, count: 0, heading: Vec3 { x: 0, y: 0, z: 0 } },
        right: AccumulatorHalf { pos: Vec3 { x: 0, y: 0, z: 0 }, count: 0, heading: Vec3 { x: 0, y: 0, z: 0 } },
    }
}

fn boid(pos: Vec3) -> Boid {
    Boid { pos, level: 0, heading: Vec3 { x: 0, y: SCALE, z: 0 }, mask: 0 }
}

/// A parent heading of +Y derives a plane normal of +X (the fallback
/// axis is Z, and Y x Z = X), so the pass splits the agents by the sign
/// of their x coordinate.
#[test]
fn select_splits_by_x_sign() {
    let mut boids = vec![
        boid(Vec3 { x: 100, y: 0, z: 0 }),
        boid(Vec3 { x: -100, y: 5, z: 5 }),
        boid(Vec3 { x: 0, y: 7, z: -7 }),
        boid(Vec3 { x: SCALE, y: 1, z: 2 }),
    ];
    let mut acc = vec![zero_slot(); 4];
    let params = SelectParams {
        plane_pos: Vec3 { x: 0, y: 0, z: 0 },
        mask: 0,
        plane_normal: Vec3 { x: 0, y: SCALE, z: 0 },
        level: 0,
    };
    select_pass(&mut boids, &mut acc, &params);

    // x > 0: bit 0 set; x <= 0 (on-plane counts as the false side): clear
    assert_eq!(boids[0].level, 1);
    assert_eq!(boids[0].mask, 1);
    assert_eq!(boids[1].level, 1);
    assert_eq!(boids[1].mask, 0);
    assert_eq!(boids[2].level, 1);
    assert_eq!(boids[2].mask, 0);
    assert_eq!(boids[3].level, 1);
    assert_eq!(boids[3].mask, 1);

    // side-true agents seed the left half, the others the right
    assert_eq!(acc[0].left.count, 1);
    assert_eq!(acc[0].left.pos, Vec3 { x: 100, y: 0, z: 0 });
    assert_eq!(acc[0].right.count, 0);
    assert_eq!(acc[1].right.count, 1);
    assert_eq!(acc[2].right.count, 1);
    assert_eq!(acc[3].left.count, 1);

    // the two children together hold exactly the parent's members
    reduce_in_place(&mut acc);
    assert_eq!(acc[0].left.count, 2);
    assert_eq!(acc[0].right.count, 2);
    assert_eq!(acc[0].left.count + acc[0].right.count, 4);
    assert_eq!(acc[0].left.pos, Vec3 { x: 100 + SCALE, y: 1, z: 2 });
    assert_eq!(acc[0].right.pos, Vec3 { x: -100, y: 12, z: -2 });
}

#[test]
fn select_leaves_other_tags_alone() {
    let mut boids = vec![
        Boid { pos: Vec3 { x: 50, y: 0, z: 0 }, level: 2, heading: Vec3 { x: 0, y: SCALE, z: 0 }, mask: 3 },
    ];
    let mut acc = vec![zero_slot(); 1];
    let params = SelectParams {
        plane_pos: Vec3 { x: 0, y: 0, z: 0 },
        mask: 0,
        plane_normal: Vec3 { x: 0, y: SCALE, z: 0 },
        level: 0,
    };
    select_pass(&mut boids, &mut acc, &params);
    assert_eq!(boids[0].level, 2);
    assert_eq!(boids[0].mask, 3);
    assert_eq!(acc[0].left.count, 0);
    assert_eq!(acc[0].right.count, 0);
}
