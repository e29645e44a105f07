use boids::accum::{Accumulator, AccumulatorHalf};
use boids::tree::build_tree;
use boids::vec3::Vec3;
use boids::{Boid, SCALE};

fn zero_slot() -> Accumulator {
    Accumulator {
        left: AccumulatorHalf { pos: Vec3 { x: 0, y: 0, z: 0 }, count: 0, heading: Vec3 { x: 0, y: 0, z: 0 } },
        right: AccumulatorHalf { pos: Vec3 { x: 0, y: 0, z: 0 }, count: 0, heading: Vec3 { x: 0, y: 0, z: 0 } },
    }
}

fn boid(x: i64, y: i64) -> Boid {
    Boid {
        pos: Vec3 { x, y, z: 0 },
        level: 0,
        heading: Vec3 { x: 0, y: SCALE, z: 0 },
        mask: 0,
    }
}

/// Two balanced clusters, depth 1: both children present and their
/// counts conserve the whole population.
#[test]
fn balanced_split_conserves_counts() {
    let mut boids: Vec<Boid> = Vec::new();
    for i in 0..4 {
        boids.push(boid(5 * SCALE, i * SCALE));
        boids.push(boid(-5 * SCALE, i * SCALE));
    }
    let mut acc = vec![zero_slot(); 8];
    let parts = build_tree(&mut boids, &mut acc, 1);

    assert_eq!(parts.len(), 3);
    let root = parts[0].unwrap();
    assert_eq!(root.count, 8);
    assert_eq!(root.center, Vec3 { x: 0, y: SCALE + SCALE / 2, z: 0 });
    let left = parts[1].unwrap();
    let right = parts[2].unwrap();
    assert_eq!(left.count, 4);
    assert_eq!(right.count, 4);
    assert_eq!(left.count + right.count, 8);
    assert_eq!(left.center, Vec3 { x: 5 * SCALE, y: SCALE + SCALE / 2, z: 0 });
    assert_eq!(right.center, Vec3 { x: -5 * SCALE, y: SCALE + SCALE / 2, z: 0 });
    for b in boids.iter() {
        assert_eq!(b.level, 1);
        assert_eq!(b.mask, if b.pos.x > 0 { 1 } else { 0 });
    }
}

/// All agents at one point, depth 2: the plane passes through them, a
/// point on the plane counts as the false side, so the side-true child
/// is empty. Its node is absent, its whole subtree stays absent and is
/// never dereferenced, and the agents whose plane lookup hit the
/// absent node stop descending — the leaf tally undercounts exactly
/// them.
#[test]
fn absent_parent_yields_absent_children() {
    let mut boids: Vec<Boid> = Vec::new();
    for _ in 0..8 {
        boids.push(boid(-3 * SCALE, 2 * SCALE));
    }
    let mut acc = vec![zero_slot(); 8];
    let parts = build_tree(&mut boids, &mut acc, 2);

    assert_eq!(parts.len(), 7);
    assert_eq!(parts[0].unwrap().count, 8);
    // every agent fell on the false side, so the side-true child is empty
    assert!(parts[1].is_none());
    assert_eq!(parts[2].unwrap().count, 8);
    // the absent node's two children are absent without any work
    assert!(parts[3].is_none());
    assert!(parts[4].is_none());
    // the populated class's plane lookup hit the absent node, so it was
    // never split either
    assert!(parts[5].is_none());
    assert!(parts[6].is_none());
    // its agents stalled one level short of the leaves
    for b in boids.iter() {
        assert_eq!(b.level, 1);
        assert_eq!(b.mask, 0);
    }
    // the leaf tally therefore counts no one (strictly under the total)
    let leaf_total: u32 = parts[3..].iter().filter_map(|p| p.map(|g| g.count)).sum();
    assert_eq!(leaf_total, 0);
    assert!(leaf_total <= 8);
}
