use cloth_sim::fixed::{fx_add, fx_div, fx_mul, fx_neg, fx_of, fx_sub, isqrt, BOUND, SCALE};
use cloth_sim::grid::Grid;
use cloth_sim::particle::Particle;
use cloth_sim::vec3::Vec3;

#[test]
fn scalar_arithmetic_exact_values() {
    // 1.5 * 0.5 == 0.75
    assert_eq!(fx_mul(98304, 32768), 49152);
    // 1 / 3, truncated toward zero
    assert_eq!(fx_div(SCALE, 3 * SCALE), 21845);
    assert_eq!(fx_add(SCALE, -SCALE), 0);
    assert_eq!(fx_sub(SCALE, 3 * SCALE), -2 * SCALE);
    assert_eq!(fx_neg(-7), 7);
    // negative operands truncate toward zero, matching the spec
    assert_eq!(fx_mul(-98304, 32768), -49152);
    assert_eq!(fx_div(-SCALE, 3 * SCALE), -21845);
}

#[test]
fn scalar_arithmetic_saturates() {
    assert_eq!(fx_add(BOUND, BOUND), BOUND);
    assert_eq!(fx_sub(-BOUND, BOUND), -BOUND);
    assert_eq!(fx_mul(BOUND, BOUND), BOUND);
    assert_eq!(fx_of(usize::MAX), BOUND);
}

#[test]
fn integer_square_root() {
    assert_eq!(isqrt(0), 0);
    assert_eq!(isqrt(1), 1);
    assert_eq!(isqrt(144), 12);
    assert_eq!(isqrt(145), 12);
    assert_eq!(isqrt(168), 12);
    assert_eq!(isqrt(169), 13);
}

#[test]
fn vector_norm_is_euclidean() {
    // a 3-4-5 triangle in units comes out exact
    let v = Vec3::new(3 * SCALE, 4 * SCALE, 0);
    assert_eq!(v.norm(), 5 * SCALE);
    let z = Vec3::zero();
    assert_eq!(z.norm(), 0);
}

#[test]
fn vector_componentwise_ops() {
    let a = Vec3::new(SCALE, 2 * SCALE, -SCALE);
    let b = Vec3::new(SCALE, SCALE, SCALE);
    let s = a.plus(b);
    assert_eq!((s.x, s.y, s.z), (2 * SCALE, 3 * SCALE, 0));
    let d = a.minus(b);
    assert_eq!((d.x, d.y, d.z), (0, SCALE, -2 * SCALE));
    let n = a.negate();
    assert_eq!((n.x, n.y, n.z), (-SCALE, -2 * SCALE, SCALE));
    let h = a.scaled(SCALE / 2);
    assert_eq!((h.x, h.y, h.z), (SCALE / 2, SCALE, -SCALE / 2));
    let q = a.div_by(2 * SCALE);
    assert_eq!((q.x, q.y, q.z), (SCALE / 2, SCALE, -SCALE / 2));
}

#[test]
fn grid_is_row_major() {
    let data: Vec<i64> = vec![10, 11, 12, 20, 21, 22];
    let g = Grid::new(data, 3);
    assert_eq!(*g.get(0, 0), 10);
    assert_eq!(*g.get(2, 0), 12);
    assert_eq!(*g.get(1, 1), 21);
    let mut g = g;
    g.set(1, 1, 99);
    assert_eq!(*g.get(1, 1), 99);
    assert_eq!(*g.get(0, 1), 20);
    assert_eq!(g.len(), 6);
}

#[test]
fn particle_starts_at_rest() {
    let p = Particle::new(SCALE, 2 * SCALE, 3 * SCALE);
    assert_eq!(p.p, p.old_p);
    assert_eq!(p.a, Vec3::zero());
    assert_eq!(p.m, SCALE);
    assert!(!p.fixed);
}

#[test]
fn particle_accumulates_specific_force() {
    let mut p = Particle::new(0, 0, 0);
    p.add_force(Vec3::new(0, -SCALE, 0));
    assert_eq!((p.a.x, p.a.y, p.a.z), (0, -SCALE, 0));
    p.add_force(Vec3::new(0, -SCALE, SCALE));
    assert_eq!((p.a.x, p.a.y, p.a.z), (0, -2 * SCALE, SCALE));
    // position is untouched by force accumulation
    assert_eq!(p.p, Vec3::zero());
}

#[test]
fn particle_verlet_step_exact() {
    let mut p = Particle::new(0, 0, 0);
    p.add_force(Vec3::new(0, -SCALE, 0));
    // dt_sq = 1/16 of a unit; at rest, damping contributes nothing
    p.step(SCALE, SCALE / 16);
    assert_eq!((p.p.x, p.p.y, p.p.z), (0, -4096, 0));
    assert_eq!(p.old_p, Vec3::zero());
    assert_eq!(p.a, Vec3::zero());
    // a second step carries the implicit velocity, damped by 0.5
    p.step(SCALE / 2, SCALE / 16);
    assert_eq!(p.p.y, -4096 - 2048);
    assert_eq!(p.old_p.y, -4096);
}

#[test]
fn pinned_particle_never_moves() {
    let mut p = Particle::new(SCALE, SCALE, SCALE);
    p.set_pinned(true);
    let before = p;
    p.offset(Vec3::new(SCALE, 0, 0));
    p.add_force(Vec3::new(0, -SCALE, 0));
    p.step(SCALE, SCALE / 16);
    p.offset(Vec3::new(0, 0, -SCALE));
    p.step(SCALE, SCALE / 16);
    assert_eq!(p.p, before.p);
    assert_eq!(p.old_p, before.old_p);
    assert!(p.fixed);
}

#[test]
fn free_particle_offset_moves_position_only() {
    let mut p = Particle::new(0, 0, 0);
    p.offset(Vec3::new(SCALE, -SCALE, 0));
    assert_eq!((p.p.x, p.p.y, p.p.z), (SCALE, -SCALE, 0));
    assert_eq!(p.old_p, Vec3::zero());
}
