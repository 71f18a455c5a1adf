use cloth_sim::cloth::{Cloth, Constraint, SimConfig};
use cloth_sim::fixed::SCALE;
use cloth_sim::grid::{Grid, GridIdx};
use cloth_sim::particle::Particle;
use cloth_sim::vec3::Vec3;

fn config() -> SimConfig {
    SimConfig {
        // dt = 0.25 units of time, so dt^2 = 1/16
        dt: SCALE / 4,
        // damping just under 1
        damping: 65208,
        iterations: 10,
        epsilon: 19661,
    }
}

/// A hand-laid square cloth: particles at the given positions, the full
/// structural/shear/flexion net captured at rest.
fn handmade(parts: Vec<Particle>, s: usize, cfg: SimConfig) -> Cloth {
    assert_eq!(parts.len(), s * s);
    let grid = Grid::new(parts, s);
    let mut cs: Vec<Constraint> = Vec::new();
    for y in 0..s {
        for x in 0..s {
            let a = GridIdx { x, y };
            if x + 1 < s {
                cs.push(Constraint::new(a, GridIdx { x: x + 1, y }, &grid));
            }
            if y + 1 < s {
                cs.push(Constraint::new(a, GridIdx { x, y: y + 1 }, &grid));
            }
            if x + 1 < s && y + 1 < s {
                cs.push(Constraint::new(a, GridIdx { x: x + 1, y: y + 1 }, &grid));
                cs.push(Constraint::new(GridIdx { x: x + 1, y }, GridIdx { x, y: y + 1 }, &grid));
            }
            if x + 2 < s {
                cs.push(Constraint::new(a, GridIdx { x: x + 2, y }, &grid));
            }
            if y + 2 < s {
                cs.push(Constraint::new(a, GridIdx { x, y: y + 2 }, &grid));
            }
        }
    }
    Cloth { particles: grid, constraints: cs, config: cfg }
}

/// A flat s-by-s grid in the xy-plane at z = 0, spacing one unit, all free.
fn flat_grid(s: usize) -> Vec<Particle> {
    let mut parts = Vec::new();
    for y in 0..s {
        for x in 0..s {
            parts.push(Particle::new(x as i64 * SCALE, y as i64 * SCALE, 0));
        }
    }
    parts
}

#[test]
fn corner_pinning_after_construction() {
    let c = Cloth::new(4 * SCALE, 4 * SCALE, 4, 0, config());
    let s: usize = 4;
    for y in 0..s {
        for x in 0..s {
            let pinned = c.particles.get(x, y).fixed;
            let corner = (y == 0 || y == s - 1) && (x <= 1 || x >= s - 2);
            assert_eq!(pinned, corner, "cell ({}, {})", x, y);
        }
    }
    // exactly eight pinned on a 4x4 grid: the whole first and last rows
    let pinned_count = c.particles.data.iter().filter(|p| p.fixed).count();
    assert_eq!(pinned_count, 8);
}

#[test]
fn corner_pinning_on_larger_grid() {
    let c = Cloth::new(10 * SCALE, 12 * SCALE, 8, 20 * SCALE, config());
    let mut pinned = Vec::new();
    for y in 0..8usize {
        for x in 0..8usize {
            if c.particles.get(x, y).fixed {
                pinned.push((x, y));
            }
        }
    }
    assert_eq!(
        pinned,
        vec![(0, 0), (1, 0), (6, 0), (7, 0), (0, 7), (1, 7), (6, 7), (7, 7)]
    );
}

#[test]
fn rest_lengths_match_construction_distances() {
    let c = Cloth::new(10 * SCALE, 12 * SCALE, 6, 20 * SCALE, config());
    assert!(!c.constraints.is_empty());
    for k in 0..c.constraints.len() {
        let cst = c.constraints[k];
        let pa = c.particles.get(cst.p1.x, cst.p1.y).p;
        let pb = c.particles.get(cst.p2.x, cst.p2.y).p;
        assert_eq!(cst.d, pa.minus(pb).norm());
    }
}

#[test]
fn constraint_count_matches_network_shape() {
    // per cell: right, down, two shear diagonals, and the two flexion links
    let s: i64 = 6;
    let c = Cloth::new(6 * SCALE, 6 * SCALE, 6, 0, config());
    let expected = s * (s - 1) * 2 + (s - 1) * (s - 1) * 2 + s * (s - 2) * 2;
    assert_eq!(c.constraints.len() as i64, expected);
}

#[test]
fn gravity_step_on_flat_grid() {
    // 4x4, flat at z = 0, spacing one unit, all free
    let mut c = handmade(flat_grid(4), 4, config());
    c.add_force(Vec3::new(0, -SCALE, 0));
    // unit mass: the specific force equals the force
    for i in 0..16 {
        assert_eq!(c.particles.data[i].a.y, -SCALE);
    }
    c.step();
    for i in 0..16 {
        let p = c.particles.data[i];
        // every particle's y decreased by exactly dt^2 * 1 from where it
        // started (the previous position holds the pre-step value)
        assert_eq!(p.p.y, p.old_p.y - 4096);
        assert!(p.p.y < p.old_p.y);
        // accelerations read zero immediately after the step
        assert_eq!(p.a, Vec3::zero());
    }
}

#[test]
fn relaxation_reduces_stretch_error() {
    // two particles one unit apart whose constraint wants half a unit:
    // stretched to exactly twice the rest length
    let mut parts = flat_grid(2);
    parts[1] = Particle::new(SCALE, 0, 0);
    parts[0] = Particle::new(0, 0, 0);
    let grid = Grid::new(parts, 2);
    let cs = vec![Constraint { p1: GridIdx { x: 0, y: 0 }, p2: GridIdx { x: 1, y: 0 }, d: SCALE / 2 }];
    let mut c = Cloth { particles: grid, constraints: cs, config: config() };
    let err_before = (c.particles.data[1].p.x - c.particles.data[0].p.x - SCALE / 2).abs();
    c.relax_pass();
    let d_after = c.particles.data[1].p.x - c.particles.data[0].p.x;
    let err_after = (d_after - SCALE / 2).abs();
    assert!(err_after < err_before);
    // dt = 1/4: each endpoint moves by dt * (d - rest) = 8192
    assert_eq!(c.particles.data[0].p.x, 8192);
    assert_eq!(c.particles.data[1].p.x, SCALE - 8192);
}

#[test]
fn relaxation_skips_pinned_endpoints() {
    let mut parts = flat_grid(2);
    parts[0].set_pinned(true);
    let grid = Grid::new(parts, 2);
    let cs = vec![Constraint { p1: GridIdx { x: 0, y: 0 }, p2: GridIdx { x: 1, y: 0 }, d: SCALE / 2 }];
    let mut c = Cloth { particles: grid, constraints: cs, config: config() };
    c.relax_pass();
    // the pinned endpoint stayed put, the free one moved toward it
    assert_eq!(c.particles.data[0].p.x, 0);
    assert_eq!(c.particles.data[1].p.x, SCALE - 8192);
}

#[test]
fn collision_pass_separates_close_pair() {
    // two particles 0.1 units apart (inside epsilon = 0.3), two far away
    let parts = vec![
        Particle::new(0, 0, 0),
        Particle::new(6554, 0, 0),
        Particle::new(10 * SCALE, 10 * SCALE, 0),
        Particle::new(20 * SCALE, 20 * SCALE, 0),
    ];
    let mut c = Cloth { particles: Grid::new(parts, 2), constraints: Vec::new(), config: config() };
    let sum_before = c.particles.data[0].p.x + c.particles.data[1].p.x;
    c.collision_pass();
    let a = c.particles.data[0].p;
    let b = c.particles.data[1].p;
    // pushed apart to at least epsilon (up to fixed-point truncation)
    assert!(b.x - a.x >= c.config.epsilon - 2);
    assert!(a.x < 0 && b.x > 6554);
    // equal and opposite: the midpoint is unchanged
    assert_eq!(a.x + b.x, sum_before);
    assert_eq!((a.y, a.z, b.y, b.z), (0, 0, 0, 0));
    // the far particles were not touched
    assert_eq!(c.particles.data[2].p, Vec3::new(10 * SCALE, 10 * SCALE, 0));
    assert_eq!(c.particles.data[3].p, Vec3::new(20 * SCALE, 20 * SCALE, 0));
}

#[test]
fn collision_pass_ignores_coincident_pair() {
    // exactly coincident particles are excluded, and no division occurs
    let parts = vec![
        Particle::new(0, 0, 0),
        Particle::new(0, 0, 0),
        Particle::new(10 * SCALE, 0, 0),
        Particle::new(20 * SCALE, 0, 0),
    ];
    let mut c = Cloth { particles: Grid::new(parts, 2), constraints: Vec::new(), config: config() };
    c.collision_pass();
    assert_eq!(c.particles.data[0].p, Vec3::zero());
    assert_eq!(c.particles.data[1].p, Vec3::zero());
}

#[test]
fn set_fixed_pins_eight_nearest() {
    // 3x3 flat grid, query at the origin corner: everything but the
    // farthest cell (2, 2) is among the eight nearest
    let mut c = Cloth { particles: Grid::new(flat_grid(3), 3), constraints: Vec::new(), config: config() };
    c.set_fixed(Vec3::zero(), true);
    let pinned: usize = c.particles.data.iter().filter(|p| p.fixed).count();
    assert_eq!(pinned, 8);
    assert!(!c.particles.get(2, 2).fixed);
    // and release them again
    c.set_fixed(Vec3::zero(), false);
    let pinned: usize = c.particles.data.iter().filter(|p| p.fixed).count();
    assert_eq!(pinned, 0);
}

#[test]
fn set_fixed_pins_all_when_fewer_than_eight() {
    let mut c = Cloth { particles: Grid::new(flat_grid(2), 2), constraints: Vec::new(), config: config() };
    c.set_fixed(Vec3::new(50 * SCALE, 50 * SCALE, 0), true);
    assert!(c.particles.data.iter().all(|p| p.fixed));
}

#[test]
fn smallest_grid_pins_every_cell() {
    // with two subdivisions the corner regions cover the whole cloth
    let c = Cloth::new(SCALE, SCALE, 2, 0, config());
    assert!(c.particles.data.iter().all(|p| p.fixed));
    assert_eq!(c.particles.data.len(), 4);
}

#[test]
fn relaxation_is_a_no_op_at_rest() {
    // freshly built, every constraint sits exactly at its rest length
    let mut c = Cloth::new(10 * SCALE, 12 * SCALE, 6, 20 * SCALE, config());
    let before = c.update_mesh();
    c.relax_pass();
    let after = c.update_mesh();
    assert_eq!(before, after);
}

#[test]
fn positions_read_out_row_major() {
    let c = Cloth::new(5 * SCALE, 5 * SCALE, 5, 7 * SCALE, config());
    let out = c.update_mesh();
    assert_eq!(out.len(), 25);
    for i in 0..25 {
        assert_eq!(out[i], c.particles.data[i].p);
    }
}

#[test]
fn identical_runs_are_bit_identical() {
    let mut a = Cloth::new(10 * SCALE, 12 * SCALE, 8, 20 * SCALE, config());
    let mut b = Cloth::new(10 * SCALE, 12 * SCALE, 8, 20 * SCALE, config());
    let drive = |c: &mut Cloth| {
        c.add_force(Vec3::new(0, -13107, 0));
        c.step();
        c.add_force(Vec3::new(0, -13107, 655));
        c.step();
        c.set_fixed(Vec3::new(5 * SCALE, -5 * SCALE, 20 * SCALE), true);
        c.add_force(Vec3::new(0, -13107, -655));
        c.step();
    };
    drive(&mut a);
    drive(&mut b);
    let pa = a.update_mesh();
    let pb = b.update_mesh();
    assert_eq!(pa.len(), pb.len());
    for i in 0..pa.len() {
        assert_eq!(pa[i], pb[i]);
    }
}

#[test]
fn step_keeps_pinned_corners_in_place() {
    let mut c = Cloth::new(10 * SCALE, 12 * SCALE, 8, 20 * SCALE, config());
    let before = c.particles.get(0, 0).p;
    for _ in 0..5 {
        c.add_force(Vec3::new(0, -13107, 0));
        c.step();
    }
    assert_eq!(c.particles.get(0, 0).p, before);
    // a free interior particle did move
    let fresh = Cloth::new(10 * SCALE, 12 * SCALE, 8, 20 * SCALE, config());
    assert_ne!(c.particles.get(4, 4).p, fresh.particles.get(4, 4).p);
}
