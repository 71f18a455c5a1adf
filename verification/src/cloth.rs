use vstd::prelude::*;

use vstd::arithmetic::div_mod::{
    lemma_div_basics, lemma_div_multiples_vanish, lemma_fundamental_div_mod, lemma_mod_bound,
};

use crate::fixed::{
    abs_i, fx_add, fx_add_s, fx_div, fx_div_s, fx_mul, fx_mul_s, fx_neg, fx_neg_s, fx_of,
    fx_of_s, fx_sub, fx_sub_s, in_range, lemma_isqrt_square, BOUND, HALF, SCALE,
};
use crate::grid::{flat_idx, lemma_flat_idx_bound, lemma_flat_idx_inj, Grid, GridIdx};
use crate::particle::{p_add_force_s, p_offset_s, p_step_s, p_wf, Particle};
use crate::vec3::{
    dist_sq_s, norm_s, norm_sq_s, v_div_s, v_neg_s, v_scale_s, v_sub_s, v_wf, v_zero_s, Vec3,
};

verus! {

/// An elastic link between two grid coordinates, holding the rest distance
/// captured when the network was built.
#[derive(Clone, Copy, Debug, PartialEq, Eq, Structural)]
pub struct Constraint {
    pub p1: GridIdx,
    pub p2: GridIdx,
    pub d: i64,
}

/// Both endpoints lie inside a `w`-by-`w` grid and the rest length is a
/// valid non-negative scalar.
pub open spec fn c_wf(c: Constraint, w: int) -> bool {
    (c.p1.x as int) < w && (c.p1.y as int) < w && (c.p2.x as int) < w && (c.p2.y as int) < w
        && 0 <= c.d && in_range(c.d)
}

/// The rest length equals the current distance of the two endpoints.
pub open spec fn rest_ok(c: Constraint, ps: Seq<Particle>, w: int) -> bool {
    c.d == norm_s(
        v_sub_s(
            ps[flat_idx(c.p1.x as int, c.p1.y as int, w)].p,
            ps[flat_idx(c.p2.x as int, c.p2.y as int, w)].p,
        ),
    )
}

impl Constraint {
    /// Link the particles at `p1` and `p2`, capturing the current distance
    /// between them as the rest length.
    pub fn new(p1: GridIdx, p2: GridIdx, particles: &Grid<Particle>) -> (c:
        Constraint)
        requires
            p1.x < particles.width,
            p2.x < particles.width,
            flat_idx(p1.x as int, p1.y as int, particles.width as int) < particles.data.len(),
            flat_idx(p2.x as int, p2.y as int, particles.width as int) < particles.data.len(),
            p_wf(particles.data@[flat_idx(p1.x as int, p1.y as int, particles.width as int)]),
            p_wf(particles.data@[flat_idx(p2.x as int, p2.y as int, particles.width as int)]),
        ensures
            c.p1 == p1,
            c.p2 == p2,
            c.d == norm_s(
                v_sub_s(
                    particles.data@[flat_idx(p1.x as int, p1.y as int, particles.width as int)].p,
                    particles.data@[flat_idx(p2.x as int, p2.y as int, particles.width as int)].p,
                ),
            ),
            0 <= c.d <= BOUND,
    {
        let pa = particles.get(p1.x, p1.y);
        let pb = particles.get(p2.x, p2.y);
        let d = pa.p.minus(pb.p).norm();
        Constraint { p1, p2, d }
    }
}

/// The simulation constants, fixed at construction: the time-step size, the
/// per-step damping factor, the number of relaxation passes per tick, and
/// the collision threshold.
#[derive(Clone, Copy, Debug, PartialEq, Eq, Structural)]
pub struct SimConfig {
    pub dt: i64,
    pub damping: i64,
    pub iterations: usize,
    pub epsilon: i64,
}

pub open spec fn cfg_wf(c: SimConfig) -> bool {
    in_range(c.dt) && in_range(c.damping) && in_range(c.epsilon)
}

/// The cloth system: a square grid of particles and the spring network over
/// it, advanced one deterministic tick at a time.
pub struct Cloth {
    pub particles: Grid<Particle>,
    pub constraints: Vec<Constraint>,
    pub config: SimConfig,
}

/// Pin the particle at `(x, y)`.
fn pin_at(g: &mut Grid<Particle>, x: usize, y: usize)
    requires
        x < old(g).width,
        flat_idx(x as int, y as int, old(g).width as int) < old(g).data.len(),
    ensures
        final(g).width == old(g).width,
        final(g).data@ == old(g).data@.update(
            flat_idx(x as int, y as int, old(g).width as int),
            Particle {
                fixed: true,
                ..old(g).data@[flat_idx(x as int, y as int, old(g).width as int)]
            },
        ),
{
    let n_len: usize = g.data.len();
    let i: usize = y * g.width + x;
    let mut p = g.data[i];
    p.set_pinned(true);
    g.data.set(i, p);
}

impl Cloth {
    pub open spec fn wf(&self) -> bool {
        &&& 1 <= self.particles.width
        &&& self.particles.data@.len() == (self.particles.width as int) * (
        self.particles.width as int)
        &&& forall|i: int|
            0 <= i < self.particles.data@.len() ==> p_wf(#[trigger] self.particles.data@[i])
        &&& forall|i: int|
            0 <= i < self.constraints@.len() ==> c_wf(
                #[trigger] self.constraints@[i],
                self.particles.width as int,
            )
        &&& cfg_wf(self.config)
    }

    /// Build a cloth: an `s`-by-`s` grid of particles laid out across
    /// `width` and `height` with a depth offset `z_base`, the eight
    /// corner-region particles pinned, and the full spring network captured
    /// at rest.
    #[verifier::rlimit(100)]
    #[verifier::spinoff_prover]
    pub fn new(width: i64, height: i64, subdivisions: usize, z_base: i64, config: SimConfig) -> (c:
        Cloth)
        requires
            in_range(width),
            in_range(height),
            in_range(z_base),
            cfg_wf(config),
            2 <= subdivisions <= 46340,
        ensures
            c.wf(),
            c.particles.width == subdivisions,
            c.particles.data@.len() == (subdivisions as int) * (subdivisions as int),
            forall|x: int, y: int|
                #![trigger flat_idx(x, y, subdivisions as int)]
                0 <= x < subdivisions && 0 <= y < subdivisions
                    ==> c.particles.data@[flat_idx(x, y, subdivisions as int)] == init_cell_s(
                    width,
                    height,
                    z_base,
                    subdivisions as int,
                    x,
                    y,
                ),
            c.constraints@ == cloth_cs_s(c.particles.data@, subdivisions as int),
            forall|i: int|
                0 <= i < c.constraints@.len() ==> rest_ok(
                    #[trigger] c.constraints@[i],
                    c.particles.data@,
                    subdivisions as int,
                ),
            c.config == config,
    {
        let s = subdivisions;
        let fs = fx_of(s);
        proof {
            assert(in_range(HALF));
        }
        let h2 = fx_mul(HALF, height);
        let nh = fx_neg(height);
        let mut parts: Vec<Particle> = Vec::new();
        let mut y: usize = 0;
        while y < s
            invariant
                y <= s,
                2 <= s <= 46340,
                fs == fx_of_s(s as int),
                fs >= SCALE,
                in_range(fs),
                in_range(width),
                in_range(height),
                in_range(z_base),
                h2 == fx_mul_s(HALF, height),
                in_range(h2),
                nh == fx_neg_s(height),
                in_range(nh),
                parts@.len() == (y as int) * (s as int),
                forall|xx: int, yy: int|
                    #![trigger flat_idx(xx, yy, s as int)]
                    0 <= xx < s && 0 <= yy < y ==> parts@[flat_idx(xx, yy, s as int)] == (Particle {
                        fixed: false,
                        ..init_cell_s(width, height, z_base, s as int, xx, yy)
                    }),
                forall|j: int| 0 <= j < parts@.len() ==> p_wf(#[trigger] parts@[j]),
            decreases s - y,
        {
            let mut x: usize = 0;
            while x < s
                invariant
                    x <= s,
                    y < s,
                    2 <= s <= 46340,
                    fs == fx_of_s(s as int),
                    fs >= SCALE,
                    in_range(fs),
                    in_range(width),
                    in_range(height),
                    in_range(z_base),
                    h2 == fx_mul_s(HALF, height),
                    in_range(h2),
                    nh == fx_neg_s(height),
                    in_range(nh),
                    parts@.len() == (y as int) * (s as int) + x,
                    forall|xx: int, yy: int|
                        #![trigger flat_idx(xx, yy, s as int)]
                        (0 <= xx < s && 0 <= yy < y) || (yy == y && 0 <= xx < x)
                            ==> parts@[flat_idx(xx, yy, s as int)] == (Particle {
                            fixed: false,
                            ..init_cell_s(width, height, z_base, s as int, xx, yy)
                        }),
                    forall|j: int| 0 <= j < parts@.len() ==> p_wf(#[trigger] parts@[j]),
                decreases s - x,
            {
                proof {
                    lemma_flat_idx_bound(x as int, y as int, s as int);
                }
                let rx = fx_div(fx_of(x), fs);
                let ry = fx_div(fx_of(y), fs);
                let px = fx_mul(width, rx);
                let py = fx_mul(nh, ry);
                let pz = fx_add(fx_mul(h2, ry), z_base);
                let pos = Vec3 { x: px, y: py, z: pz };
                parts.push(Particle { p: pos, old_p: pos, a: Vec3::zero(), m: SCALE, fixed: false });
                proof {
                    assert(pos == init_pos_s(width, height, z_base, s as int, x as int, y as int));
                    assert forall|xx: int, yy: int|
                        (0 <= xx < s && 0 <= yy < y) || (yy == y && 0 <= xx < x) implies flat_idx(
                        xx,
                        yy,
                        s as int,
                    ) < (y as int) * (s as int) + (x as int) by {
                        assert(yy * (s as int) + xx < (y as int) * (s as int) + (x as int))
                            by (nonlinear_arith)
                            requires
                                0 <= xx < (s as int),
                                0 <= yy,
                                (s as int) > 0,
                                (yy < (y as int)) || (yy == (y as int) && xx < (x as int)),
                        ;
                    }
                    assert(parts@[flat_idx(x as int, y as int, s as int)] == (Particle {
                        fixed: false,
                        ..init_cell_s(width, height, z_base, s as int, x as int, y as int)
                    }));
                }
                x += 1;
            }
            proof {
                assert(((y as int) + 1) * (s as int) == (y as int) * (s as int) + (s as int))
                    by (nonlinear_arith);
            }
            y += 1;
        }
        let mut grid: Grid<Particle> = Grid::new(parts, s);
        proof {
            assert((s as int) * (s as int) >= (s as int) * 2) by (nonlinear_arith)
                requires
                    s >= 2,
            ;
            lemma_flat_idx_bound(0, 0, s as int);
            lemma_flat_idx_bound(1, 0, s as int);
            lemma_flat_idx_bound((s - 2) as int, 0, s as int);
            lemma_flat_idx_bound((s - 1) as int, 0, s as int);
            lemma_flat_idx_bound(0, (s - 1) as int, s as int);
            lemma_flat_idx_bound(1, (s - 1) as int, s as int);
            lemma_flat_idx_bound((s - 2) as int, (s - 1) as int, s as int);
            lemma_flat_idx_bound((s - 1) as int, (s - 1) as int, s as int);
        }
        pin_at(&mut grid, 0, 0);
        pin_at(&mut grid, 1, 0);
        pin_at(&mut grid, s - 2, 0);
        pin_at(&mut grid, s - 1, 0);
        pin_at(&mut grid, 0, s - 1);
        pin_at(&mut grid, 1, s - 1);
        pin_at(&mut grid, s - 2, s - 1);
        pin_at(&mut grid, s - 1, s - 1);
        proof {
            assert forall|xx: int, yy: int|
                0 <= xx < s && 0 <= yy < s implies #[trigger] grid.data@[flat_idx(
                xx,
                yy,
                s as int,
            )] == init_cell_s(width, height, z_base, s as int, xx, yy) by {
                lemma_flat_idx_bound(xx, yy, s as int);
                lemma_flat_idx_inj(xx, yy, 0, 0, s as int);
                lemma_flat_idx_inj(xx, yy, 1, 0, s as int);
                lemma_flat_idx_inj(xx, yy, (s - 2) as int, 0, s as int);
                lemma_flat_idx_inj(xx, yy, (s - 1) as int, 0, s as int);
                lemma_flat_idx_inj(xx, yy, 0, (s - 1) as int, s as int);
                lemma_flat_idx_inj(xx, yy, 1, (s - 1) as int, s as int);
                lemma_flat_idx_inj(xx, yy, (s - 2) as int, (s - 1) as int, s as int);
                lemma_flat_idx_inj(xx, yy, (s - 1) as int, (s - 1) as int, s as int);
            }
        }
        let ghost pg = grid.data@;
        let ghost total_cs = cloth_cs_s(pg, s as int);
        let mut cs: Vec<Constraint> = Vec::new();
        proof {
            assert(cs@ + total_cs =~= total_cs);
        }
        let mut y2: usize = 0;
        while y2 < s
            invariant
                y2 <= s,
                2 <= s <= 46340,
                grid.width == s,
                grid.data@ == pg,
                pg.len() == (s as int) * (s as int),
                forall|j: int| 0 <= j < pg.len() ==> p_wf(#[trigger] pg[j]),
                cs@ + cs_from_s(pg, s as int, 0, y2 as int) == total_cs,
                forall|i: int|
                    0 <= i < cs@.len() ==> c_wf(#[trigger] cs@[i], s as int) && rest_ok(
                        cs@[i],
                        pg,
                        s as int,
                    ),
            decreases s - y2,
        {
            let mut x2: usize = 0;
            while x2 < s
                invariant
                    x2 <= s,
                    y2 < s,
                    2 <= s <= 46340,
                    grid.width == s,
                    grid.data@ == pg,
                    pg.len() == (s as int) * (s as int),
                    forall|j: int| 0 <= j < pg.len() ==> p_wf(#[trigger] pg[j]),
                    cs@ + cs_from_s(pg, s as int, x2 as int, y2 as int) == total_cs,
                    forall|i: int|
                        0 <= i < cs@.len() ==> c_wf(#[trigger] cs@[i], s as int) && rest_ok(
                            cs@[i],
                            pg,
                            s as int,
                        ),
                decreases s - x2,
            {
                let ghost centry = cs@;
                proof {
                    lemma_flat_idx_bound(x2 as int, y2 as int, s as int);
                    if x2 + 1 < s {
                        lemma_flat_idx_bound(x2 as int + 1, y2 as int, s as int);
                    }
                    if y2 + 1 < s {
                        lemma_flat_idx_bound(x2 as int, y2 as int + 1, s as int);
                    }
                    if x2 + 1 < s && y2 + 1 < s {
                        lemma_flat_idx_bound(x2 as int + 1, y2 as int + 1, s as int);
                    }
                    if x2 + 2 < s {
                        lemma_flat_idx_bound(x2 as int + 2, y2 as int, s as int);
                    }
                    if y2 + 2 < s {
                        lemma_flat_idx_bound(x2 as int, y2 as int + 2, s as int);
                    }
                }
                if x2 + 1 < s {
                    let c = Constraint::new(
                        GridIdx { x: x2, y: y2 },
                        GridIdx { x: x2 + 1, y: y2 },
                        &grid,
                    );
                    cs.push(c);
                }
                if y2 + 1 < s {
                    let c = Constraint::new(
                        GridIdx { x: x2, y: y2 },
                        GridIdx { x: x2, y: y2 + 1 },
                        &grid,
                    );
                    cs.push(c);
                }
                if x2 + 1 < s && y2 + 1 < s {
                    let c = Constraint::new(
                        GridIdx { x: x2, y: y2 },
                        GridIdx { x: x2 + 1, y: y2 + 1 },
                        &grid,
                    );
                    cs.push(c);
                    let c2 = Constraint::new(
                        GridIdx { x: x2 + 1, y: y2 },
                        GridIdx { x: x2, y: y2 + 1 },
                        &grid,
                    );
                    cs.push(c2);
                }
                if x2 + 2 < s {
                    let c = Constraint::new(
                        GridIdx { x: x2, y: y2 },
                        GridIdx { x: x2 + 2, y: y2 },
                        &grid,
                    );
                    cs.push(c);
                }
                if y2 + 2 < s {
                    let c = Constraint::new(
                        GridIdx { x: x2, y: y2 },
                        GridIdx { x: x2, y: y2 + 2 },
                        &grid,
                    );
                    cs.push(c);
                }
                proof {
                    assert(cs@ =~= centry + cell_cs_s(pg, s as int, x2 as int, y2 as int));
                    assert(cs_from_s(pg, s as int, x2 as int, y2 as int) == cell_cs_s(
                        pg,
                        s as int,
                        x2 as int,
                        y2 as int,
                    ) + cs_from_s(pg, s as int, x2 as int + 1, y2 as int));
                    assert(cs@ + cs_from_s(pg, s as int, x2 as int + 1, y2 as int) =~= centry
                        + cs_from_s(pg, s as int, x2 as int, y2 as int));
                }
                x2 += 1;
            }
            proof {
                assert(cs_from_s(pg, s as int, s as int, y2 as int) == cs_from_s(
                    pg,
                    s as int,
                    0,
                    y2 as int + 1,
                ));
            }
            y2 += 1;
        }
        proof {
            assert(cs_from_s(pg, s as int, 0, s as int) =~= Seq::<Constraint>::empty());
            assert(cs@ =~= cs@ + cs_from_s(pg, s as int, 0, s as int));
            assert(cs@ == total_cs);
        }
        Cloth { particles: grid, constraints: cs, config }
    }

    /// Accumulate one external force vector into every particle.
    pub fn add_force(&mut self, force: Vec3)
        requires
            old(self).wf(),
            v_wf(force),
        ensures
            final(self).wf(),
            final(self).particles.width == old(self).particles.width,
            final(self).constraints == old(self).constraints,
            final(self).config == old(self).config,
            final(self).particles.data@ == old(self).particles.data@.map_values(
                |p: Particle| p_add_force_s(p, force),
            ),
    {
        let ghost ps0 = self.particles.data@;
        let n = self.particles.data.len();
        let mut i: usize = 0;
        while i < n
            invariant
                i <= n,
                n == self.particles.data@.len(),
                n == ps0.len(),
                v_wf(force),
                self.particles.width == old(self).particles.width,
                self.constraints == old(self).constraints,
                self.config == old(self).config,
                forall|j: int| 0 <= j < n ==> p_wf(#[trigger] self.particles.data@[j]),
                forall|j: int| i <= j < n ==> self.particles.data@[j] == ps0[j],
                forall|j: int|
                    0 <= j < i ==> self.particles.data@[j] == p_add_force_s(
                        ps0[j],
                        force,
                    ),
            decreases n - i,
        {
            let mut p = self.particles.data[i];
            p.add_force(force);
            self.particles.data.set(i, p);
            i += 1;
        }
        proof {
            assert(self.particles.data@ =~= ps0.map_values(|p: Particle| p_add_force_s(p, force)));
        }
    }

    /// Verlet-integrate every particle once, using `damping` and the squared
    /// time step; order-independent, so a single left-to-right sweep.
    pub fn integrate_pass(&mut self)
        requires
            old(self).wf(),
        ensures
            final(self).wf(),
            final(self).particles.width == old(self).particles.width,
            final(self).constraints == old(self).constraints,
            final(self).config == old(self).config,
            final(self).particles.data@ == integrate_all_s(
                old(self).particles.data@,
                old(self).config.damping,
                fx_mul_s(old(self).config.dt, old(self).config.dt),
            ),
    {
        let ghost ps0 = self.particles.data@;
        let damping = self.config.damping;
        let dt_sq = fx_mul(self.config.dt, self.config.dt);
        let n = self.particles.data.len();
        let mut i: usize = 0;
        while i < n
            invariant
                i <= n,
                n == self.particles.data@.len(),
                n == ps0.len(),
                in_range(damping),
                in_range(dt_sq),
                self.particles.width == old(self).particles.width,
                self.constraints == old(self).constraints,
                self.config == old(self).config,
                forall|j: int| 0 <= j < n ==> p_wf(#[trigger] self.particles.data@[j]),
                forall|j: int| i <= j < n ==> self.particles.data@[j] == ps0[j],
                forall|j: int|
                    0 <= j < i ==> self.particles.data@[j] == p_step_s(ps0[j], damping, dt_sq),
            decreases n - i,
        {
            let mut p = self.particles.data[i];
            p.step(damping, dt_sq);
            self.particles.data.set(i, p);
            i += 1;
        }
        proof {
            assert(self.particles.data@ =~= integrate_all_s(ps0, damping, dt_sq));
        }
    }

    /// One relaxation pass over the whole spring network, in constraint
    /// order, each correction visible to the constraints after it.
    pub fn relax_pass(&mut self)
        requires
            old(self).wf(),
        ensures
            final(self).wf(),
            final(self).particles.width == old(self).particles.width,
            final(self).constraints == old(self).constraints,
            final(self).config == old(self).config,
            final(self).particles.data@ == relax_pass_s(
                old(self).particles.data@,
                old(self).constraints@,
                old(self).particles.width as int,
                old(self).config.dt,
            ),
    {
        let ghost ps0 = self.particles.data@;
        let ghost cs = self.constraints@;
        let w = self.particles.width;
        let dt = self.config.dt;
        let m = self.constraints.len();
        let mut k: usize = 0;
        proof {
            assert(cs.take(0) =~= Seq::<Constraint>::empty());
        }
        while k < m
            invariant
                k <= m,
                m == cs.len(),
                self.constraints == old(self).constraints,
                cs == old(self).constraints@,
                self.particles.width == w,
                w == old(self).particles.width,
                self.config == old(self).config,
                dt == self.config.dt,
                1 <= w,
                self.particles.data@.len() == (w as int) * (w as int),
                ps0.len() == self.particles.data@.len(),
                forall|j: int|
                    0 <= j < self.particles.data@.len() ==> p_wf(
                        #[trigger] self.particles.data@[j],
                    ),
                forall|j: int| 0 <= j < cs.len() ==> c_wf(#[trigger] cs[j], w as int),
                cfg_wf(self.config),
                self.particles.data@ == relax_pass_s(ps0, cs.take(k as int), w as int, dt),
            decreases m - k,
        {
            let c = self.constraints[k];
            proof {
                assert(c == cs[k as int]);
                assert(c_wf(c, w as int));
                lemma_flat_idx_bound(c.p1.x as int, c.p1.y as int, w as int);
                lemma_flat_idx_bound(c.p2.x as int, c.p2.y as int, w as int);
                assert(flat_idx(c.p1.x as int, c.p1.y as int, w as int)
                    < self.particles.data@.len());
                assert(flat_idx(c.p2.x as int, c.p2.y as int, w as int)
                    < self.particles.data@.len());
            }
            let n_len: usize = self.particles.data.len();
            let i1: usize = c.p1.y * w + c.p1.x;
            let i2: usize = c.p2.y * w + c.p2.x;
            let pa = self.particles.data[i1];
            let pb = self.particles.data[i2];
            let delta = pb.p.minus(pa.p);
            let d = delta.norm();
            if d != 0 {
                let t = fx_mul(dt, fx_sub(d, c.d));
                let corr = delta.div_by(d).scaled(t);
                let mut a2 = self.particles.data[i1];
                a2.offset(corr);
                self.particles.data.set(i1, a2);
                let mut b2 = self.particles.data[i2];
                b2.offset(corr.negate());
                self.particles.data.set(i2, b2);
            }
            proof {
                assert(cs.take(k + 1).drop_last() =~= cs.take(k as int));
                assert(cs.take(k + 1).last() == cs[k as int]);
                assert(self.particles.data@ == relax_c_s(
                    relax_pass_s(ps0, cs.take(k as int), w as int, dt),
                    cs[k as int],
                    w as int,
                    dt,
                ));
            }
            k += 1;
        }
        proof {
            assert(cs.take(m as int) =~= cs);
        }
    }

    /// Advance the simulation by exactly one fixed time step: constraint
    /// relaxation, then integration, then collision avoidance.
    pub fn step(&mut self)
        requires
            old(self).wf(),
        ensures
            final(self).wf(),
            final(self).particles.width == old(self).particles.width,
            final(self).constraints == old(self).constraints,
            final(self).config == old(self).config,
            final(self).particles.data@ == step_s(
                old(self).particles.data@,
                old(self).constraints@,
                old(self).particles.width as int,
                old(self).config,
            ),
    {
        let ghost ps0 = self.particles.data@;
        let ghost cs = self.constraints@;
        let ghost w = self.particles.width as int;
        let ghost cfg = self.config;
        let iters = self.config.iterations;
        let mut it: usize = 0;
        while it < iters
            invariant
                it <= iters,
                self.wf(),
                self.particles.width == old(self).particles.width,
                self.constraints == old(self).constraints,
                self.config == old(self).config,
                cs == old(self).constraints@,
                w == old(self).particles.width as int,
                cfg == old(self).config,
                iters == cfg.iterations,
                self.particles.data@ == relax_iter_s(ps0, cs, w, cfg.dt, it as nat),
            decreases iters - it,
        {
            self.relax_pass();
            it += 1;
        }
        self.integrate_pass();
        self.collision_pass();
    }

    /// The collision-avoidance pass: every unordered pair of distinct
    /// particles closer than `epsilon` (but not coincident) receives equal
    /// and opposite repulsions; all corrections are collected first and
    /// applied only after the full scan.
    pub fn collision_pass(&mut self)
        requires
            old(self).wf(),
        ensures
            final(self).wf(),
            final(self).particles.width == old(self).particles.width,
            final(self).constraints == old(self).constraints,
            final(self).config == old(self).config,
            final(self).particles.data@ == collide_s(
                old(self).particles.data@,
                old(self).config.epsilon,
            ),
    {
        let ghost ps = self.particles.data@;
        let eps = self.config.epsilon;
        let n = self.particles.data.len();
        let ghost total = mods_outer_s(ps, 0, eps);
        let mut mods: Vec<(usize, Vec3)> = Vec::new();
        proof {
            assert(mods@ + total =~= total);
        }
        let mut i: usize = 0;
        while i < n
            invariant
                i <= n,
                n == ps.len(),
                self.particles.data@ == ps,
                eps == self.config.epsilon,
                in_range(eps),
                forall|q: int| 0 <= q < n ==> p_wf(#[trigger] ps[q]),
                mods@ + mods_outer_s(ps, i, eps) == total,
                forall|q: int|
                    0 <= q < mods@.len() ==> ((#[trigger] mods@[q]).0 < n && v_wf(mods@[q].1)),
            decreases n - i,
        {
            let mut j: usize = i + 1;
            proof {
                assert(mods_outer_s(ps, i, eps) == mods_inner_s(ps, i, (i + 1) as usize, eps)
                    + mods_outer_s(ps, (i + 1) as usize, eps));
            }
            while j < n
                invariant
                    i < n,
                    i + 1 <= j <= n,
                    n == ps.len(),
                    self.particles.data@ == ps,
                    eps == self.config.epsilon,
                    in_range(eps),
                    forall|q: int| 0 <= q < n ==> p_wf(#[trigger] ps[q]),
                    mods@ + mods_inner_s(ps, i, j, eps) + mods_outer_s(ps, (i + 1) as usize, eps)
                        == total,
                    forall|q: int|
                        0 <= q < mods@.len() ==> ((#[trigger] mods@[q]).0 < n && v_wf(mods@[q].1)),
                decreases n - j,
            {
                let ghost mods_entry = mods@;
                let pi = self.particles.data[i];
                let pj = self.particles.data[j];
                let diff = pj.p.minus(pi.p);
                let d = diff.norm();
                if d > 0 && d < eps {
                    proof {
                        assert(in_range(SCALE));
                    }
                    let factor = fx_sub(SCALE, fx_div(eps, d));
                    let delta = diff.scaled(factor);
                    mods.push((i, delta));
                    mods.push((j, delta.negate()));
                    proof {
                        assert(mods@ =~= mods_entry + pair_mods_s(ps, i, j, eps));
                    }
                } else {
                    proof {
                        assert(pair_mods_s(ps, i, j, eps) =~= Seq::<(usize, Vec3)>::empty());
                        assert(mods@ =~= mods_entry + pair_mods_s(ps, i, j, eps));
                    }
                }
                proof {
                    assert(mods_inner_s(ps, i, j, eps) == pair_mods_s(ps, i, j, eps)
                        + mods_inner_s(ps, i, (j + 1) as usize, eps));
                    assert(mods@ + mods_inner_s(ps, i, (j + 1) as usize, eps) =~= mods_entry
                        + mods_inner_s(ps, i, j, eps));
                    assert(mods@ + mods_inner_s(ps, i, (j + 1) as usize, eps) + mods_outer_s(
                        ps,
                        (i + 1) as usize,
                        eps,
                    ) =~= mods_entry + mods_inner_s(ps, i, j, eps) + mods_outer_s(
                        ps,
                        (i + 1) as usize,
                        eps,
                    ));
                }
                j += 1;
            }
            proof {
                assert(mods_inner_s(ps, i, (n as int) as usize, eps) =~= Seq::<
                    (usize, Vec3),
                >::empty());
                assert(mods@ + mods_outer_s(ps, (i + 1) as usize, eps) =~= mods@ + mods_inner_s(
                    ps,
                    i,
                    j,
                    eps,
                ) + mods_outer_s(ps, (i + 1) as usize, eps));
            }
            i += 1;
        }
        proof {
            assert(mods_outer_s(ps, i, eps) =~= Seq::<(usize, Vec3)>::empty());
            assert(mods@ =~= mods@ + mods_outer_s(ps, i, eps));
            assert(mods@ == total);
        }
        let mlen = mods.len();
        let mut k: usize = 0;
        proof {
            assert(mods@.take(0) =~= Seq::<(usize, Vec3)>::empty());
            assert(apply_mods_s(ps, mods@.take(0)) == ps);
        }
        while k < mlen
            invariant
                k <= mlen,
                mlen == mods@.len(),
                n == ps.len(),
                self.particles.data@.len() == n,
                self.particles.width == old(self).particles.width,
                self.constraints == old(self).constraints,
                self.config == old(self).config,
                eps == self.config.epsilon,
                forall|q: int| 0 <= q < n ==> p_wf(#[trigger] self.particles.data@[q]),
                forall|q: int|
                    0 <= q < mods@.len() ==> ((#[trigger] mods@[q]).0 < n && v_wf(mods@[q].1)),
                self.particles.data@ == apply_mods_s(ps, mods@.take(k as int)),
            decreases mlen - k,
        {
            let m = mods[k];
            let mut p = self.particles.data[m.0];
            p.offset(m.1);
            self.particles.data.set(m.0, p);
            proof {
                assert(mods@.take(k + 1).drop_last() =~= mods@.take(k as int));
                assert(mods@.take(k + 1).last() == mods@[k as int]);
            }
            k += 1;
        }
        proof {
            assert(mods@.take(mlen as int) =~= mods@);
        }
    }

    /// Pin (or release) the eight particles nearest to `point` — all of
    /// them, on a cloth with fewer than eight. Nearness is by squared
    /// distance, computed exactly; ties may fall either way.
    pub fn set_fixed(&mut self, point: Vec3, fixed: bool)
        requires
            old(self).wf(),
            v_wf(point),
        ensures
            final(self).wf(),
            final(self).particles.width == old(self).particles.width,
            final(self).constraints == old(self).constraints,
            final(self).config == old(self).config,
            exists|sel: Seq<int>|
                selection_ok(
                    sel,
                    old(self).particles.data@,
                    final(self).particles.data@,
                    point,
                    fixed,
                ),
    {
        let ghost ps0 = self.particles.data@;
        let n = self.particles.data.len();
        if n == 0 {
            proof {
                let sel = Seq::<int>::empty();
                assert(selection_ok(sel, ps0, self.particles.data@, point, fixed));
            }
            return ;
        }
        let k_target: usize = if n < 8 {
            n
        } else {
            8
        };
        let mut chosen: Vec<bool> = Vec::new();
        let mut f: usize = 0;
        while f < n
            invariant
                f <= n,
                chosen@.len() == f,
                forall|j: int| 0 <= j < f ==> !(#[trigger] chosen@[j]),
                count_true(chosen@) == 0,
            decreases n - f,
        {
            let ghost pre = chosen@;
            chosen.push(false);
            proof {
                assert(chosen@.drop_last() =~= pre);
            }
            f += 1;
        }
        let ghost mut picked: Seq<int> = Seq::empty();
        let mut round: usize = 0;
        while round < k_target
            invariant
                round <= k_target,
                k_target == min_len_8(n as int),
                k_target <= n,
                n == self.particles.data@.len(),
                self.particles.data@ == ps0,
                self.particles.width == old(self).particles.width,
                self.constraints == old(self).constraints,
                self.config == old(self).config,
                v_wf(point),
                forall|j: int| 0 <= j < n ==> p_wf(#[trigger] ps0[j]),
                chosen@.len() == n,
                picked.len() == round,
                picked.no_duplicates(),
                forall|q: int| 0 <= q < picked.len() ==> 0 <= #[trigger] picked[q] < n,
                forall|j: int| 0 <= j < n ==> ((#[trigger] chosen@[j]) <==> picked.contains(j)),
                count_true(chosen@) == round,
                forall|a: int, b: int|
                    #![auto]
                    picked.contains(a) && 0 <= b < n && !picked.contains(b) ==> dsq_to(
                        ps0,
                        a,
                        point,
                    ) <= dsq_to(ps0, b, point),
            decreases k_target - round,
        {
            let mut best: usize = n;
            let mut best_d: u128 = 0;
            let mut t: usize = 0;
            while t < n
                invariant
                    t <= n,
                    best <= n,
                    n == self.particles.data@.len(),
                    self.particles.data@ == ps0,
                    v_wf(point),
                    forall|j: int| 0 <= j < n ==> p_wf(#[trigger] ps0[j]),
                    chosen@.len() == n,
                    best == n ==> (forall|j: int| 0 <= j < t ==> (#[trigger] chosen@[j])),
                    best < n ==> (best < t && !chosen@[best as int] && best_d as int == dsq_to(
                        ps0,
                        best as int,
                        point,
                    )),
                    best < n ==> (forall|j: int|
                        0 <= j < t && !(#[trigger] chosen@[j]) ==> best_d as int <= dsq_to(
                            ps0,
                            j,
                            point,
                        )),
                decreases n - t,
            {
                if !chosen[t] {
                    let dd = self.particles.data[t].p.dist_sq(point);
                    if best == n || dd < best_d {
                        best = t;
                        best_d = dd;
                    }
                }
                t += 1;
            }
            proof {
                lemma_count_true_all(chosen@);
                if best == n {
                    assert(count_true(chosen@) == n);
                    assert(false);
                }
            }
            let ghost chosen_pre = chosen@;
            chosen.set(best, true);
            proof {
                lemma_count_true_update(chosen_pre, best as int);
                assert(!picked.contains(best as int));
                let picked_pre = picked;
                picked = picked.push(best as int);
                assert(picked[picked_pre.len() as int] == best as int);
                assert forall|j: int| 0 <= j < n implies ((#[trigger] chosen@[j])
                    <==> picked.contains(j)) by {
                    if picked.contains(j) {
                        let q = choose|q: int| 0 <= q < picked.len() && picked[q] == j;
                        if q < picked_pre.len() {
                            assert(picked_pre[q] == j);
                            assert(picked_pre.contains(j));
                        }
                    }
                    if chosen@[j] {
                        if j != best as int {
                            assert(chosen_pre[j]);
                            assert(picked_pre.contains(j));
                            let q = choose|q: int|
                                0 <= q < picked_pre.len() && picked_pre[q] == j;
                            assert(picked[q] == j);
                        }
                    }
                }
                assert forall|i: int, j: int|
                    0 <= i < j < picked.len() implies picked[i] != picked[j] by {
                    if j < picked_pre.len() {
                        assert(picked_pre[i] == picked[i] && picked_pre[j] == picked[j]);
                    } else {
                        assert(picked[j] == best as int);
                        assert(picked_pre[i] == picked[i]);
                        if picked[i] == best as int {
                            assert(picked_pre.contains(best as int));
                        }
                    }
                }
                assert forall|a: int, b: int|
                    picked.contains(a) && 0 <= b < n && !picked.contains(b) implies dsq_to(
                    ps0,
                    a,
                    point,
                ) <= dsq_to(ps0, b, point) by {
                    assert(!chosen@[b]);
                    assert(!chosen_pre[b]);
                    if a == best as int {
                        assert(best_d as int <= dsq_to(ps0, b, point));
                    } else {
                        let q = choose|q: int| 0 <= q < picked.len() && picked[q] == a;
                        assert(q < picked_pre.len());
                        assert(picked_pre.contains(a));
                        assert(!picked_pre.contains(b));
                    }
                }
            }
            round += 1;
        }
        let mut u: usize = 0;
        while u < n
            invariant
                u <= n,
                n == self.particles.data@.len(),
                ps0.len() == n,
                self.particles.width == old(self).particles.width,
                self.constraints == old(self).constraints,
                self.config == old(self).config,
                chosen@.len() == n,
                forall|j: int| 0 <= j < n ==> p_wf(#[trigger] ps0[j]),
                forall|j: int| 0 <= j < n ==> ((#[trigger] chosen@[j]) <==> picked.contains(j)),
                forall|j: int| u <= j < n ==> #[trigger] self.particles.data@[j] == ps0[j],
                forall|j: int|
                    0 <= j < u ==> #[trigger] self.particles.data@[j] == (if picked.contains(j) {
                        Particle { fixed, ..ps0[j] }
                    } else {
                        ps0[j]
                    }),
            decreases n - u,
        {
            if chosen[u] {
                let mut p = self.particles.data[u];
                p.set_pinned(fixed);
                self.particles.data.set(u, p);
            }
            u += 1;
        }
        proof {
            assert(selection_ok(picked, ps0, self.particles.data@, point, fixed));
        }
    }

    /// The current position of every particle, one per grid cell, in
    /// row-major order; the consumer copies this into its vertex buffer.
    pub fn update_mesh(&self) -> (r: Vec<Vec3>)
        requires
            self.wf(),
        ensures
            r@.len() == self.particles.data@.len(),
            forall|i: int| 0 <= i < r@.len() ==> r@[i] == self.particles.data@[i].p,
    {
        let n = self.particles.data.len();
        let mut out: Vec<Vec3> = Vec::new();
        let mut i: usize = 0;
        while i < n
            invariant
                i <= n,
                n == self.particles.data@.len(),
                out@.len() == i,
                forall|j: int| 0 <= j < i ==> out@[j] == self.particles.data@[j].p,
            decreases n - i,
        {
            out.push(self.particles.data[i].p);
            i += 1;
        }
        out
    }
}

/// Every particle after one integration pass.
pub open spec fn integrate_all_s(ps: Seq<Particle>, damping: i64, dt_sq: i64) -> Seq<Particle> {
    ps.map_values(|p: Particle| p_step_s(p, damping, dt_sq))
}

/// The positional correction `t * (delta / d)` applied to a constraint's
/// first endpoint (its negation goes to the second).
pub open spec fn corr_s(delta: Vec3, d: i64, t: i64) -> Vec3 {
    v_scale_s(v_div_s(delta, d), t)
}

/// Relax a single constraint: move both endpoints toward their rest
/// distance by `dt * (d - rest)` along the line between them. Coincident
/// endpoints (distance zero) are left untouched, so no division is ever
/// undefined.
pub open spec fn relax_c_s(ps: Seq<Particle>, c: Constraint, w: int, dt: i64) -> Seq<Particle> {
    let i1 = flat_idx(c.p1.x as int, c.p1.y as int, w);
    let i2 = flat_idx(c.p2.x as int, c.p2.y as int, w);
    if 0 <= i1 && i1 < ps.len() && 0 <= i2 && i2 < ps.len() {
        let delta = v_sub_s(ps[i2].p, ps[i1].p);
        let d = norm_s(delta);
        if d == 0 {
            ps
        } else {
            let t = fx_mul_s(dt, fx_sub_s(d, c.d));
            let corr = corr_s(delta, d, t);
            let ps1 = ps.update(i1, p_offset_s(ps[i1], corr));
            ps1.update(i2, p_offset_s(ps1[i2], v_neg_s(corr)))
        }
    } else {
        ps
    }
}

/// One relaxation pass: every constraint once, in order, each seeing the
/// corrections of those before it (Gauss–Seidel style).
pub open spec fn relax_pass_s(ps: Seq<Particle>, cs: Seq<Constraint>, w: int, dt: i64) -> Seq<
    Particle,
>
    decreases cs.len(),
{
    if cs.len() == 0 {
        ps
    } else {
        relax_c_s(relax_pass_s(ps, cs.drop_last(), w, dt), cs.last(), w, dt)
    }
}

/// The repulsion applied to the first particle of a too-close pair:
/// `diff * (1 - eps / d)`, which points away from the other particle
/// because the scalar factor is negative when `d < eps`.
pub open spec fn coll_delta_s(diff: Vec3, d: i64, eps: i64) -> Vec3 {
    v_scale_s(diff, fx_sub_s(SCALE, fx_div_s(eps, d)))
}

/// The pending corrections for one particle pair: equal and opposite
/// repulsions when the pair is closer than `eps` but not coincident,
/// nothing otherwise.
pub open spec fn pair_mods_s(ps: Seq<Particle>, i: usize, j: usize, eps: i64) -> Seq<
    (usize, Vec3),
> {
    if i < ps.len() && j < ps.len() {
        let diff = v_sub_s(ps[j as int].p, ps[i as int].p);
        let d = norm_s(diff);
        if 0 < d && d < eps {
            seq![(i, coll_delta_s(diff, d, eps)), (j, v_neg_s(coll_delta_s(diff, d, eps)))]
        } else {
            Seq::empty()
        }
    } else {
        Seq::empty()
    }
}

/// Pending corrections of particle `i` against all partners from `j` up.
pub open spec fn mods_inner_s(ps: Seq<Particle>, i: usize, j: usize, eps: i64) -> Seq<
    (usize, Vec3),
>
    decreases ps.len() - j,
{
    if j >= ps.len() || j >= usize::MAX {
        Seq::empty()
    } else {
        pair_mods_s(ps, i, j, eps) + mods_inner_s(ps, i, (j + 1) as usize, eps)
    }
}

/// Pending corrections of every unordered pair from particle `i` up.
pub open spec fn mods_outer_s(ps: Seq<Particle>, i: usize, eps: i64) -> Seq<(usize, Vec3)>
    decreases ps.len() - i,
{
    if i >= ps.len() || i >= usize::MAX {
        Seq::empty()
    } else {
        mods_inner_s(ps, i, (i + 1) as usize, eps) + mods_outer_s(ps, (i + 1) as usize, eps)
    }
}

/// Apply a batch of pending `(index, delta)` corrections, in order.
pub open spec fn apply_mods_s(ps: Seq<Particle>, ms: Seq<(usize, Vec3)>) -> Seq<Particle>
    decreases ms.len(),
{
    if ms.len() == 0 {
        ps
    } else {
        let prev = apply_mods_s(ps, ms.drop_last());
        let m = ms.last();
        if (m.0 as int) < prev.len() {
            prev.update(m.0 as int, p_offset_s(prev[m.0 as int], m.1))
        } else {
            prev
        }
    }
}

/// The whole collision-avoidance pass: scan every unordered pair of
/// distinct particles against the current positions, collect all
/// corrections, and only then apply them, so the outcome does not depend
/// on pair order.
pub open spec fn collide_s(ps: Seq<Particle>, eps: i64) -> Seq<Particle> {
    apply_mods_s(ps, mods_outer_s(ps, 0, eps))
}

/// The eight corner-region cells: the two outermost columns on each side
/// of the first and last row.
pub open spec fn is_corner(x: int, y: int, s: int) -> bool {
    (y == 0 || y == s - 1) && (x <= 1 || x >= s - 2)
}

/// The initial position of cell `(x, y)`: `x` runs across the width, `y`
/// down the height (negative), and the depth rises with `y` from a fixed
/// base offset.
pub open spec fn init_pos_s(width: i64, height: i64, z_base: i64, s: int, x: int, y: int) -> Vec3 {
    let rx = fx_div_s(fx_of_s(x), fx_of_s(s));
    let ry = fx_div_s(fx_of_s(y), fx_of_s(s));
    Vec3 {
        x: fx_mul_s(width, rx),
        y: fx_mul_s(fx_neg_s(height), ry),
        z: fx_add_s(fx_mul_s(fx_mul_s(HALF, height), ry), z_base),
    }
}

/// The initial particle of cell `(x, y)`: at rest at its initial position,
/// unit mass, pinned exactly in the corner regions.
pub open spec fn init_cell_s(width: i64, height: i64, z_base: i64, s: int, x: int, y: int) -> Particle {
    let q = init_pos_s(width, height, z_base, s, x, y);
    Particle { p: q, old_p: q, a: v_zero_s(), m: SCALE, fixed: is_corner(x, y, s) }
}

/// The constraint linking cells `a` and `b`, with the rest length captured
/// from the current particle positions.
pub open spec fn mk_c_s(ps: Seq<Particle>, s: int, ax: int, ay: int, bx: int, by: int) -> Constraint {
    Constraint {
        p1: GridIdx { x: ax as usize, y: ay as usize },
        p2: GridIdx { x: bx as usize, y: by as usize },
        d: norm_s(
            v_sub_s(ps[flat_idx(ax, ay, s)].p, ps[flat_idx(bx, by, s)].p),
        ),
    }
}

/// The constraints contributed by cell `(x, y)`: structural links to the
/// right and downward neighbours, the two shear diagonals, and flexion
/// links two cells away — each only where the neighbour is in bounds.
pub open spec fn cell_cs_s(ps: Seq<Particle>, s: int, x: int, y: int) -> Seq<Constraint> {
    let structural_x: Seq<Constraint> = if x + 1 < s {
        seq![mk_c_s(ps, s, x, y, x + 1, y)]
    } else {
        Seq::empty()
    };
    let structural_y: Seq<Constraint> = if y + 1 < s {
        seq![mk_c_s(ps, s, x, y, x, y + 1)]
    } else {
        Seq::empty()
    };
    let shear: Seq<Constraint> = if x + 1 < s && y + 1 < s {
        seq![mk_c_s(ps, s, x, y, x + 1, y + 1), mk_c_s(ps, s, x + 1, y, x, y + 1)]
    } else {
        Seq::empty()
    };
    let flex_x: Seq<Constraint> = if x + 2 < s {
        seq![mk_c_s(ps, s, x, y, x + 2, y)]
    } else {
        Seq::empty()
    };
    let flex_y: Seq<Constraint> = if y + 2 < s {
        seq![mk_c_s(ps, s, x, y, x, y + 2)]
    } else {
        Seq::empty()
    };
    structural_x + structural_y + shear + flex_x + flex_y
}

/// The constraints of all cells from `(x, y)` onward, row-major.
pub open spec fn cs_from_s(ps: Seq<Particle>, s: int, x: int, y: int) -> Seq<Constraint>
    decreases s - y, s - x + 1,
{
    if y < 0 || x < 0 || y >= s {
        Seq::empty()
    } else if x >= s {
        cs_from_s(ps, s, 0, y + 1)
    } else {
        cell_cs_s(ps, s, x, y) + cs_from_s(ps, s, x + 1, y)
    }
}

/// The whole spring network of an `s`-by-`s` grid.
pub open spec fn cloth_cs_s(ps: Seq<Particle>, s: int) -> Seq<Constraint> {
    cs_from_s(ps, s, 0, 0)
}

/// How many of the flags are set.
pub open spec fn count_true(s: Seq<bool>) -> int
    decreases s.len(),
{
    if s.len() == 0 {
        0
    } else {
        count_true(s.drop_last()) + if s.last() {
            1int
        } else {
            0int
        }
    }
}

/// Setting a clear flag raises the count by one.
pub proof fn lemma_count_true_update(s: Seq<bool>, i: int)
    requires
        0 <= i < s.len(),
        !s[i],
    ensures
        count_true(s.update(i, true)) == count_true(s) + 1,
    decreases s.len(),
{
    if i == s.len() - 1 {
        assert(s.update(i, true).drop_last() =~= s.drop_last());
    } else {
        assert(s.update(i, true).drop_last() =~= s.drop_last().update(i, true));
        lemma_count_true_update(s.drop_last(), i);
    }
}

/// The count is bounded by the length, and is the length exactly when
/// every flag is set.
pub proof fn lemma_count_true_all(s: Seq<bool>)
    ensures
        0 <= count_true(s) <= s.len(),
        count_true(s) == s.len() ==> (forall|i: int| 0 <= i < s.len() ==> s[i]),
        (forall|i: int| 0 <= i < s.len() ==> s[i]) ==> count_true(s) == s.len(),
    decreases s.len(),
{
    if s.len() == 0 {
    } else {
        lemma_count_true_all(s.drop_last());
        if count_true(s) == s.len() {
            assert forall|i: int| 0 <= i < s.len() implies s[i] by {
                if i < s.len() - 1 {
                    assert(s.drop_last()[i] == s[i]);
                }
            }
        }
        if forall|i: int| 0 <= i < s.len() ==> s[i] {
            assert forall|i: int| 0 <= i < s.drop_last().len() implies s.drop_last()[i] by {
                assert(s.drop_last()[i] == s[i]);
            }
            assert(s.last());
        }
    }
}

/// The distance of particle `j` to a query point, squared.
pub open spec fn dsq_to(ps: Seq<Particle>, j: int, point: Vec3) -> int {
    dist_sq_s(ps[j].p, point)
}

pub open spec fn min_len_8(n: int) -> int {
    if n < 8 {
        n
    } else {
        8
    }
}

/// What a pinning query did: `sel` names the particles whose flag was set
/// to `fixed` — exactly eight of them (or all, on a smaller cloth), and no
/// unselected particle lies strictly closer to the query point than any
/// selected one. Everything else is untouched.
pub open spec fn selection_ok(
    sel: Seq<int>,
    ps0: Seq<Particle>,
    ps1: Seq<Particle>,
    point: Vec3,
    fixed: bool,
) -> bool {
    &&& sel.no_duplicates()
    &&& sel.len() == min_len_8(ps0.len() as int)
    &&& forall|q: int| 0 <= q < sel.len() ==> 0 <= #[trigger] sel[q] < ps0.len()
    &&& ps1.len() == ps0.len()
    &&& forall|j: int|
        0 <= j < ps0.len() ==> #[trigger] ps1[j] == (if sel.contains(j) {
            Particle { fixed, ..ps0[j] }
        } else {
            ps0[j]
        })
    &&& forall|a: int, b: int|
        #![auto]
        sel.contains(a) && 0 <= b < ps0.len() && !sel.contains(b) ==> dsq_to(ps0, a, point)
            <= dsq_to(ps0, b, point)
}

/// One whole simulation tick: relax the spring network for the configured
/// number of passes, Verlet-integrate every particle, then run the
/// collision-avoidance pass — always in that order.
pub open spec fn step_s(ps: Seq<Particle>, cs: Seq<Constraint>, w: int, cfg: SimConfig) -> Seq<
    Particle,
> {
    let relaxed = relax_iter_s(ps, cs, w, cfg.dt, cfg.iterations as nat);
    let integrated = integrate_all_s(relaxed, cfg.damping, fx_mul_s(cfg.dt, cfg.dt));
    collide_s(integrated, cfg.epsilon)
}

/// How far a constraint's current distance is from its rest length.
pub open spec fn constraint_err_s(ps: Seq<Particle>, c: Constraint, w: int) -> int {
    abs_i(
        (norm_s(
            v_sub_s(
                ps[flat_idx(c.p2.x as int, c.p2.y as int, w)].p,
                ps[flat_idx(c.p1.x as int, c.p1.y as int, w)].p,
            ),
        ) as int) - c.d,
    )
}

/// Relaxation reduces the stretch error: for a single constraint whose
/// endpoints are free, lie on a line parallel to the x-axis, and stand at
/// exactly twice the rest length, one relaxation strictly decreases
/// `|distance - rest_length|`. The two provisos are what fixed-point
/// arithmetic forces: the correction `dt * rest_length` must not round
/// down to zero (it must be at least one raw step, `SCALE`), and the time
/// step must not exceed half a unit, so the correction cannot overshoot.
pub proof fn lemma_relaxation_reduces_error(ps: Seq<Particle>, c: Constraint, w: int, dt: i64)
    requires
        0 <= flat_idx(c.p1.x as int, c.p1.y as int, w) < ps.len(),
        0 <= flat_idx(c.p2.x as int, c.p2.y as int, w) < ps.len(),
        flat_idx(c.p1.x as int, c.p1.y as int, w) != flat_idx(c.p2.x as int, c.p2.y as int, w),
        !ps[flat_idx(c.p1.x as int, c.p1.y as int, w)].fixed,
        !ps[flat_idx(c.p2.x as int, c.p2.y as int, w)].fixed,
        v_wf(ps[flat_idx(c.p1.x as int, c.p1.y as int, w)].p),
        v_wf(ps[flat_idx(c.p2.x as int, c.p2.y as int, w)].p),
        ps[flat_idx(c.p2.x as int, c.p2.y as int, w)].p.y == ps[flat_idx(
            c.p1.x as int,
            c.p1.y as int,
            w,
        )].p.y,
        ps[flat_idx(c.p2.x as int, c.p2.y as int, w)].p.z == ps[flat_idx(
            c.p1.x as int,
            c.p1.y as int,
            w,
        )].p.z,
        c.d > 0,
        2 * (c.d as int) <= BOUND,
        (ps[flat_idx(c.p2.x as int, c.p2.y as int, w)].p.x as int) == ps[flat_idx(
            c.p1.x as int,
            c.p1.y as int,
            w,
        )].p.x + 2 * (c.d as int),
        0 < dt <= HALF,
        (dt as int) * (c.d as int) >= SCALE,
    ensures
        constraint_err_s(relax_c_s(ps, c, w, dt), c, w) < constraint_err_s(ps, c, w),
{
    let i1 = flat_idx(c.p1.x as int, c.p1.y as int, w);
    let i2 = flat_idx(c.p2.x as int, c.p2.y as int, w);
    let pa = ps[i1];
    let pb = ps[i2];
    let cd = c.d as int;
    let delta = v_sub_s(pb.p, pa.p);
    assert(delta.x as int == 2 * cd);
    assert(delta.y == 0 && delta.z == 0);
    assert((2 * cd) * (2 * cd) >= 0) by (nonlinear_arith);
    assert(norm_sq_s(delta) == (2 * cd) * (2 * cd));
    lemma_isqrt_square((2 * cd) as nat);
    assert(((2 * cd) as nat) * ((2 * cd) as nat) == ((2 * cd) * (2 * cd)) as nat)
        by (nonlinear_arith)
        requires
            cd > 0,
    ;
    let d = norm_s(delta);
    assert(d as int == 2 * cd);
    assert(fx_sub_s(d, c.d) == c.d);
    let prod = (dt as int) * cd;
    assert(prod >= SCALE);
    lemma_fundamental_div_mod(prod, SCALE as int);
    lemma_mod_bound(prod, SCALE as int);
    let q = prod / (SCALE as int);
    let r = prod % (SCALE as int);
    assert(q >= 1) by (nonlinear_arith)
        requires
            prod >= 65536,
            prod == 65536 * q + r,
            0 <= r < 65536,
    ;
    assert(prod <= 32768 * cd) by (nonlinear_arith)
        requires
            0 < dt as int <= 32768,
            cd > 0,
            prod == (dt as int) * cd,
    ;
    assert(q < cd) by (nonlinear_arith)
        requires
            0 < cd,
            0 <= r,
            prod == 65536 * q + r,
            prod <= 32768 * cd,
    ;
    assert(abs_i(dt as int) * abs_i(cd) == prod);
    let t = fx_mul_s(dt, c.d);
    assert(t as int == q);
    lemma_div_multiples_vanish(SCALE as int, 2 * cd);
    assert(abs_i(delta.x as int) * (SCALE as int) == (2 * cd) * (SCALE as int));
    assert(((2 * cd) * (SCALE as int)) / (2 * cd) == SCALE as int);
    assert(fx_div_s(delta.x, d) == SCALE);
    lemma_div_basics(2 * cd);
    assert(fx_div_s(0, d) == 0);
    assert(v_div_s(delta, d) == Vec3 { x: SCALE, y: 0, z: 0 });
    lemma_div_multiples_vanish(t as int, SCALE as int);
    assert(abs_i(SCALE as int) * abs_i(t as int) == (SCALE as int) * (t as int));
    assert(fx_mul_s(SCALE, t) == t);
    lemma_div_basics(SCALE as int);
    assert(fx_mul_s(0, t) == 0);
    let corr = corr_s(delta, d, t);
    assert(corr == Vec3 { x: t, y: 0, z: 0 });
    let pa2 = p_offset_s(pa, corr);
    assert(pa2.p.x as int == pa.p.x + q);
    assert(pa2.p.y == pa.p.y && pa2.p.z == pa.p.z);
    assert(v_neg_s(corr) == Vec3 { x: (-(t as int)) as i64, y: 0, z: 0 });
    let ps1 = ps.update(i1, pa2);
    assert(ps1[i2] == pb);
    let pb2 = p_offset_s(pb, v_neg_s(corr));
    assert(pb2.p.x as int == pb.p.x - q);
    assert(pb2.p.y == pb.p.y && pb2.p.z == pb.p.z);
    let ps2 = relax_c_s(ps, c, w, dt);
    assert(ps2 == ps1.update(i2, pb2));
    assert(ps2[i1] == pa2 && ps2[i2] == pb2);
    let delta2 = v_sub_s(pb2.p, pa2.p);
    assert(delta2.x as int == 2 * cd - 2 * q);
    assert(delta2.y == 0 && delta2.z == 0);
    assert((2 * cd - 2 * q) * (2 * cd - 2 * q) >= 0) by (nonlinear_arith);
    assert(norm_sq_s(delta2) == (2 * cd - 2 * q) * (2 * cd - 2 * q));
    lemma_isqrt_square((2 * cd - 2 * q) as nat);
    assert(((2 * cd - 2 * q) as nat) * ((2 * cd - 2 * q) as nat) == ((2 * cd - 2 * q) * (2 * cd
        - 2 * q)) as nat) by (nonlinear_arith)
        requires
            q < cd,
    ;
    assert(norm_s(delta2) as int == 2 * cd - 2 * q);
    assert(constraint_err_s(ps2, c, w) == abs_i(cd - 2 * q));
    assert(constraint_err_s(ps, c, w) == cd);
    assert(abs_i(cd - 2 * q) < cd);
}

/// Collision separation: for a cloth of two free particles that stand on a
/// line parallel to the x-axis at a distance `0 < d < eps`, one
/// collision-avoidance pass pushes them apart to at least `eps - 1` raw
/// steps (one step of fixed-point truncation is the only loss), and the
/// corrections are equal and opposite, so the midpoint of the pair — the
/// coordinate sums — is unchanged. The threshold must be at most one unit
/// and the pair must stand `eps` clear of the saturation bound.
pub proof fn lemma_collision_separates(ps: Seq<Particle>, eps: i64)
    requires
        ps.len() == 2,
        v_wf(ps[0].p),
        v_wf(ps[1].p),
        !ps[0].fixed,
        !ps[1].fixed,
        ps[1].p.y == ps[0].p.y,
        ps[1].p.z == ps[0].p.z,
        (ps[0].p.x as int) < ps[1].p.x,
        (ps[1].p.x as int) - ps[0].p.x < eps,
        0 < eps <= SCALE,
        -(BOUND as int) + eps <= ps[0].p.x,
        (ps[1].p.x as int) <= BOUND - eps,
    ensures
        (collide_s(ps, eps)[0].p.x as int) + collide_s(ps, eps)[1].p.x == (ps[0].p.x as int)
            + ps[1].p.x,
        collide_s(ps, eps)[0].p.y == ps[0].p.y,
        collide_s(ps, eps)[1].p.y == ps[1].p.y,
        collide_s(ps, eps)[0].p.z == ps[0].p.z,
        collide_s(ps, eps)[1].p.z == ps[1].p.z,
        (norm_s(v_sub_s(collide_s(ps, eps)[1].p, collide_s(ps, eps)[0].p)) as int) >= eps - 1,
{
    let pa = ps[0];
    let pb = ps[1];
    let d = (pb.p.x as int) - pa.p.x;
    let diff = v_sub_s(pb.p, pa.p);
    assert(diff.x as int == d);
    assert(diff.y == 0 && diff.z == 0);
    assert(d * d >= 0) by (nonlinear_arith);
    assert(norm_sq_s(diff) == d * d);
    lemma_isqrt_square(d as nat);
    assert((d as nat) * (d as nat) == (d * d) as nat) by (nonlinear_arith)
        requires
            d > 0,
    ;
    let dn = norm_s(diff);
    assert(dn as int == d);
    // the ratio eps / d, in fixed point
    let se = (eps as int) * (SCALE as int);
    lemma_fundamental_div_mod(se, d);
    lemma_mod_bound(se, d);
    let ratio = se / d;
    let r1 = se % d;
    assert(ratio >= SCALE + 1) by (nonlinear_arith)
        requires
            0 < d,
            d < eps,
            d < 65536,
            se == (eps as int) * 65536,
            se == d * ratio + r1,
            0 <= r1 < d,
    ;
    assert(ratio <= se) by (nonlinear_arith)
        requires
            1 <= d,
            se == d * ratio + r1,
            0 <= r1,
            ratio >= 0,
    ;
    assert(se <= 65536 * 65536) by (nonlinear_arith)
        requires
            se == (eps as int) * 65536,
            eps <= 65536,
    ;
    assert(abs_i(eps as int) * (SCALE as int) == se);
    assert(fx_div_s(eps, dn) as int == ratio);
    let factor = fx_sub_s(SCALE, fx_div_s(eps, dn));
    assert(factor as int == SCALE - ratio);
    assert(factor < 0);
    // the correction magnitude
    let aprod = d * (ratio - SCALE);
    assert(abs_i(d) == d);
    assert(abs_i(factor as int) == ratio - SCALE);
    assert(abs_i(d) * abs_i(factor as int) == aprod);
    lemma_fundamental_div_mod(aprod, SCALE as int);
    lemma_mod_bound(aprod, SCALE as int);
    let mmag = aprod / (SCALE as int);
    let r2 = aprod % (SCALE as int);
    assert(aprod == d * ratio - d * 65536) by (nonlinear_arith)
        requires
            aprod == d * (ratio - 65536),
    ;
    assert(mmag >= eps - d - 1) by (nonlinear_arith)
        requires
            aprod == d * ratio + (-(d * 65536)),
            d * ratio == se - r1,
            se == (eps as int) * 65536,
            aprod == 65536 * mmag + r2,
            0 <= r2 < 65536,
            0 <= r1 < d,
            0 < d <= 65536,
    ;
    assert(mmag <= eps) by (nonlinear_arith)
        requires
            aprod == 65536 * mmag + r2,
            0 <= r2,
            aprod == d * ratio + (-(d * 65536)),
            d * ratio == se - r1,
            0 <= r1,
            se == (eps as int) * 65536,
            d > 0,
            65536 > 0,
    ;
    assert(mmag >= 0) by (nonlinear_arith)
        requires
            aprod >= 0,
            aprod == 65536 * mmag + r2,
            0 <= r2 < 65536,
    ;
    let delta = coll_delta_s(diff, dn, eps);
    assert(fx_mul_s(diff.x, factor) as int == -mmag);
    lemma_div_basics(SCALE as int);
    let fa = abs_i(factor as int);
    assert(abs_i(0int) == 0);
    assert(0int * fa == 0) by (nonlinear_arith);
    assert(abs_i(0int) * abs_i(factor as int) == 0);
    assert(0int / (SCALE as int) == 0);
    assert(fx_mul_s(0, factor) == 0);
    assert(delta == Vec3 { x: (-mmag) as i64, y: 0, z: 0 });
    assert(v_neg_s(delta) == Vec3 { x: mmag as i64, y: 0, z: 0 });
    // the full pass over two particles is exactly this one pair
    let mods = mods_outer_s(ps, 0, eps);
    assert(mods_inner_s(ps, 0, 2, eps) =~= Seq::<(usize, Vec3)>::empty());
    assert(mods_inner_s(ps, 1, 2, eps) =~= Seq::<(usize, Vec3)>::empty());
    assert(mods_outer_s(ps, 2, eps) =~= Seq::<(usize, Vec3)>::empty());
    assert(mods_outer_s(ps, 1, eps) =~= Seq::<(usize, Vec3)>::empty());
    assert(0 < (dn as int) < eps);
    assert(pair_mods_s(ps, 0, 1, eps) == seq![
        (0usize, delta),
        (1usize, v_neg_s(delta)),
    ]);
    assert(mods =~= seq![(0usize, delta), (1usize, v_neg_s(delta))]);
    // apply the two corrections
    let ms1 = mods.drop_last();
    assert(ms1 =~= seq![(0usize, delta)]);
    assert(ms1.drop_last() =~= Seq::<(usize, Vec3)>::empty());
    assert(apply_mods_s(ps, Seq::<(usize, Vec3)>::empty()) == ps);
    let pa2 = p_offset_s(pa, delta);
    let ps1 = apply_mods_s(ps, ms1);
    assert(ms1.last() == (0usize, delta));
    assert(ps1 =~= ps.update(0, pa2));
    assert(ps1[1] == pb);
    let pb2 = p_offset_s(pb, v_neg_s(delta));
    let ps2 = collide_s(ps, eps);
    assert(mods.last() == (1usize, v_neg_s(delta)));
    assert(ps2 =~= ps1.update(1, pb2));
    assert(pa2.p.x as int == pa.p.x - mmag);
    assert(pb2.p.x as int == pb.p.x + mmag);
    assert(pa2.p.y == pa.p.y && pa2.p.z == pa.p.z);
    assert(pb2.p.y == pb.p.y && pb2.p.z == pb.p.z);
    // the new distance is d + 2 * mmag, at least eps - 1
    let delta2 = v_sub_s(pb2.p, pa2.p);
    assert(delta2.x as int == d + 2 * mmag);
    assert(delta2.y == 0 && delta2.z == 0);
    assert((d + 2 * mmag) * (d + 2 * mmag) >= 0) by (nonlinear_arith);
    assert(norm_sq_s(delta2) == (d + 2 * mmag) * (d + 2 * mmag));
    lemma_isqrt_square((d + 2 * mmag) as nat);
    assert(((d + 2 * mmag) as nat) * ((d + 2 * mmag) as nat) == ((d + 2 * mmag) * (d + 2
        * mmag)) as nat) by (nonlinear_arith)
        requires
            d > 0,
            mmag >= 0,
    ;
    assert(norm_s(delta2) as int == d + 2 * mmag);
    assert(d + 2 * mmag >= eps - 1);
}

/// A tick is a pure mathematical function of the particle state, the
/// constraint network, the grid width and the configuration: two runs from
/// equal states through equal calls give bit-identical positions.
pub proof fn lemma_step_deterministic(
    ps1: Seq<Particle>,
    ps2: Seq<Particle>,
    cs1: Seq<Constraint>,
    cs2: Seq<Constraint>,
    w1: int,
    w2: int,
    cfg1: SimConfig,
    cfg2: SimConfig,
)
    requires
        ps1 == ps2,
        cs1 == cs2,
        w1 == w2,
        cfg1 == cfg2,
    ensures
        step_s(ps1, cs1, w1, cfg1) == step_s(ps2, cs2, w2, cfg2),
{
}

/// `k` relaxation passes in sequence.
pub open spec fn relax_iter_s(ps: Seq<Particle>, cs: Seq<Constraint>, w: int, dt: i64, k: nat) -> Seq<
    Particle,
>
    decreases k,
{
    if k == 0 {
        ps
    } else {
        relax_pass_s(relax_iter_s(ps, cs, w, dt, (k - 1) as nat), cs, w, dt)
    }
}

} // verus!
