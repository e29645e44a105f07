use boids::accum::{acc_to_group, reduce_in_place, Accumulator, AccumulatorHalf};
use boids::vec3::Vec3;

fn synthetic(n: usize) -> Vec<Accumulator> {
    let mut v = Vec::new();
    for i in 0..n as i64 {
        v.push(Accumulator {
            left: AccumulatorHalf {
                pos: Vec3 { x: i, y: 2 * i, z: -i },
                count: 1,
                heading: Vec3 { x: i + 1, y: 0, z: 3 * i },
            },
            right: AccumulatorHalf {
                pos: Vec3 { x: 10 - i, y: i, z: 0 },
                count: 1,
                heading: Vec3 { x: 0, y: -i, z: i },
            },
        });
    }
    v
}

fn zero_slot() -> Accumulator {
    Accumulator {
        left: AccumulatorHalf { pos: Vec3 { x: 0, y: 0, z: 0 }, count: 0, heading: Vec3 { x: 0, y: 0, z: 0 } },
        right: AccumulatorHalf { pos: Vec3 { x: 0, y: 0, z: 0 }, count: 0, heading: Vec3 { x: 0, y: 0, z: 0 } },
    }
}

fn check_reduced(n: usize, acc: &Vec<Accumulator>) {
    // exact elementwise sums over i in [0, n)
    let s: i64 = (0..n as i64).sum();
    let a = acc[0];
    assert_eq!(a.left.pos, Vec3 { x: s, y: 2 * s, z: -s });
    assert_eq!(a.left.count, n as u32);
    assert_eq!(a.left.heading, Vec3 { x: s + n as i64, y: 0, z: 3 * s });
    assert_eq!(a.right.pos, Vec3 { x: 10 * n as i64 - s, y: s, z: 0 });
    assert_eq!(a.right.count, n as u32);
    assert_eq!(a.right.heading, Vec3 { x: 0, y: -s, z: s });
}

#[test]
fn reduce_one() {
    let mut acc = synthetic(1);
    reduce_in_place(&mut acc);
    check_reduced(1, &acc);
}

#[test]
fn reduce_two() {
    let mut acc = synthetic(2);
    reduce_in_place(&mut acc);
    check_reduced(2, &acc);
}

#[test]
fn reduce_sixteen() {
    let mut acc = synthetic(16);
    reduce_in_place(&mut acc);
    check_reduced(16, &acc);
}

#[test]
fn reduce_two_fifty_six() {
    let mut acc = synthetic(256);
    reduce_in_place(&mut acc);
    check_reduced(256, &acc);
}

#[test]
fn reduce_padded_to_power_of_two() {
    // five live slots rounded up to eight with zeroed padding
    let mut acc = synthetic(5);
    while acc.len() < 8 {
        acc.push(zero_slot());
    }
    reduce_in_place(&mut acc);
    check_reduced(5, &acc);
}

#[test]
fn group_from_reduced_half() {
    let half = AccumulatorHalf {
        pos: Vec3 { x: 10, y: -7, z: 0 },
        count: 2,
        heading: Vec3 { x: 9, y: 0, z: -9 },
    };
    let g = acc_to_group(&half).unwrap();
    assert_eq!(g.center, Vec3 { x: 5, y: -3, z: 0 });
    assert_eq!(g.heading, Vec3 { x: 4, y: 0, z: -4 });
    assert_eq!(g.count, 2);
}

#[test]
fn group_from_empty_half_is_absent() {
    let half = AccumulatorHalf {
        pos: Vec3 { x: 0, y: 0, z: 0 },
        count: 0,
        heading: Vec3 { x: 0, y: 0, z: 0 },
    };
    assert!(acc_to_group(&half).is_none());
}
