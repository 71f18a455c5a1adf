use vstd::prelude::*;

use crate::fixed::{in_range, BOUND, SCALE};
use crate::vec3::{v_add_s, v_div_s, v_scale_s, v_sub_s, v_wf, v_zero_s, Vec3};

verus! {

/// One mass point of the cloth: current and previous position (the pair
/// encodes the implicit Verlet velocity), the accumulated specific force for
/// the current tick, the mass, and the pinned flag.
#[derive(Clone, Copy, Debug, PartialEq, Eq, Structural)]
pub struct Particle {
    pub p: Vec3,
    pub old_p: Vec3,
    pub a: Vec3,
    pub m: i64,
    pub fixed: bool,
}

/// Positions and acceleration are in range and the mass is positive.
pub open spec fn p_wf(p: Particle) -> bool {
    v_wf(p.p) && v_wf(p.old_p) && v_wf(p.a) && 0 < p.m && in_range(p.m)
}

/// A freshly built particle: at rest (previous position equals position),
/// no accumulated force, unit mass, free.
pub open spec fn p_new_s(x: i64, y: i64, z: i64) -> Particle {
    Particle {
        p: Vec3 { x, y, z },
        old_p: Vec3 { x, y, z },
        a: v_zero_s(),
        m: SCALE,
        fixed: false,
    }
}

/// Accumulate `f / m` into the acceleration.
pub open spec fn p_add_force_s(p: Particle, f: Vec3) -> Particle {
    Particle { a: v_add_s(p.a, v_div_s(f, p.m)), ..p }
}

/// Move the position directly, unless pinned.
pub open spec fn p_offset_s(p: Particle, v: Vec3) -> Particle {
    if p.fixed {
        p
    } else {
        Particle { p: v_add_s(p.p, v), ..p }
    }
}

/// One Verlet integration step, unless pinned: the position advances by the
/// damped implicit velocity plus `a * dt_sq`, the previous position becomes
/// the pre-step position, and the acceleration resets to zero.
pub open spec fn p_step_s(p: Particle, damping: i64, dt_sq: i64) -> Particle {
    if p.fixed {
        p
    } else {
        Particle {
            p: v_add_s(
                p.p,
                v_add_s(v_scale_s(v_sub_s(p.p, p.old_p), damping), v_scale_s(p.a, dt_sq)),
            ),
            old_p: p.p,
            a: v_zero_s(),
            ..p
        }
    }
}

/// A pinned particle is immovable: direct offsets and integration steps
/// leave the whole particle — position, previous position, acceleration and
/// flag — exactly as it was, however often they are applied.
pub proof fn lemma_pin_immovable(p: Particle, v: Vec3, damping: i64, dt_sq: i64)
    requires
        p.fixed,
    ensures
        p_offset_s(p, v) == p,
        p_step_s(p, damping, dt_sq) == p,
{
}

impl Particle {
    pub fn new(x: i64, y: i64, z: i64) -> (r: Particle)
        requires
            in_range(x),
            in_range(y),
            in_range(z),
        ensures
            r == p_new_s(x, y, z),
            p_wf(r),
    {
        let pos = Vec3 { x, y, z };
        Particle { p: pos, old_p: pos, a: Vec3::zero(), m: SCALE, fixed: false }
    }

    /// Accumulates `f / m` into the acceleration. Pinned particles
    /// accumulate too; the flag only freezes position updates.
    pub fn add_force(&mut self, f: Vec3)
        requires
            p_wf(*old(self)),
            v_wf(f),
        ensures
            *final(self) == p_add_force_s(*old(self), f),
            p_wf(*final(self)),
    {
        let delta = f.div_by(self.m);
        self.a = self.a.plus(delta);
    }

    /// Adds `v` to the position; a no-op when pinned.
    pub fn offset(&mut self, v: Vec3)
        requires
            p_wf(*old(self)),
            v_wf(v),
        ensures
            *final(self) == p_offset_s(*old(self), v),
            p_wf(*final(self)),
    {
        if !self.fixed {
            self.p = self.p.plus(v);
        }
    }

    /// One Verlet integration step; a no-op when pinned (a pinned particle
    /// keeps its stale previous position, so unpinning resumes motion from
    /// the velocity implied by that stale pair).
    pub fn step(&mut self, damping: i64, dt_sq: i64)
        requires
            p_wf(*old(self)),
            in_range(damping),
            in_range(dt_sq),
        ensures
            *final(self) == p_step_s(*old(self), damping, dt_sq),
            p_wf(*final(self)),
    {
        if !self.fixed {
            let vel = self.p.minus(self.old_p).scaled(damping);
            let acc = self.a.scaled(dt_sq);
            let new_p = self.p.plus(vel.plus(acc));
            self.old_p = self.p;
            self.p = new_p;
            self.a = Vec3::zero();
        }
    }

    /// Pin or release the particle.
    pub fn set_pinned(&mut self, fixed: bool)
        ensures
            *final(self) == (Particle { fixed, ..*old(self) }),
    {
        self.fixed = fixed;
    }
}

} // verus!
