use vstd::prelude::*;

use crate::fixed::{
    abs_i, clip, fx_add, fx_add_s, fx_div, fx_div_s, fx_mul, fx_mul_s, fx_neg, fx_neg_s, fx_sub,
    fx_sub_s, in_range, isqrt, isqrt_s, lemma_abs_square, lemma_mul_le, BOUND,
};

verus! {

/// A 3-D vector (or point) of fixed-point scalars.
#[derive(Clone, Copy, Debug, PartialEq, Eq, Structural)]
pub struct Vec3 {
    pub x: i64,
    pub y: i64,
    pub z: i64,
}

/// All three components lie within the saturation bound.
pub open spec fn v_wf(v: Vec3) -> bool {
    in_range(v.x) && in_range(v.y) && in_range(v.z)
}

pub open spec fn v_zero_s() -> Vec3 {
    Vec3 { x: 0, y: 0, z: 0 }
}

pub open spec fn v_add_s(a: Vec3, b: Vec3) -> Vec3 {
    Vec3 { x: fx_add_s(a.x, b.x), y: fx_add_s(a.y, b.y), z: fx_add_s(a.z, b.z) }
}

pub open spec fn v_sub_s(a: Vec3, b: Vec3) -> Vec3 {
    Vec3 { x: fx_sub_s(a.x, b.x), y: fx_sub_s(a.y, b.y), z: fx_sub_s(a.z, b.z) }
}

pub open spec fn v_neg_s(a: Vec3) -> Vec3 {
    Vec3 { x: fx_neg_s(a.x), y: fx_neg_s(a.y), z: fx_neg_s(a.z) }
}

/// Componentwise product with a scalar.
pub open spec fn v_scale_s(a: Vec3, s: i64) -> Vec3 {
    Vec3 { x: fx_mul_s(a.x, s), y: fx_mul_s(a.y, s), z: fx_mul_s(a.z, s) }
}

/// Componentwise quotient by a scalar.
pub open spec fn v_div_s(a: Vec3, d: i64) -> Vec3 {
    Vec3 { x: fx_div_s(a.x, d), y: fx_div_s(a.y, d), z: fx_div_s(a.z, d) }
}

/// The raw sum of squared components (in squared raw units).
pub open spec fn norm_sq_s(a: Vec3) -> int {
    (a.x as int) * (a.x as int) + (a.y as int) * (a.y as int) + (a.z as int) * (a.z as int)
}

/// The Euclidean length, saturated at `BOUND`.
pub open spec fn norm_s(a: Vec3) -> i64 {
    clip(isqrt_s(norm_sq_s(a) as nat) as int) as i64
}

/// The exact squared distance between two points, as an unbounded integer.
pub open spec fn dist_sq_s(a: Vec3, b: Vec3) -> int {
    let dx = a.x as int - b.x as int;
    let dy = a.y as int - b.y as int;
    let dz = a.z as int - b.z as int;
    dx * dx + dy * dy + dz * dz
}

impl Vec3 {
    pub fn new(x: i64, y: i64, z: i64) -> (r: Vec3)
        ensures
            r == (Vec3 { x, y, z }),
    {
        Vec3 { x, y, z }
    }

    pub fn zero() -> (r: Vec3)
        ensures
            r == v_zero_s(),
    {
        Vec3 { x: 0, y: 0, z: 0 }
    }

    pub fn plus(self, o: Vec3) -> (r: Vec3)
        requires
            v_wf(self),
            v_wf(o),
        ensures
            r == v_add_s(self, o),
            v_wf(r),
    {
        Vec3 { x: fx_add(self.x, o.x), y: fx_add(self.y, o.y), z: fx_add(self.z, o.z) }
    }

    pub fn minus(self, o: Vec3) -> (r: Vec3)
        requires
            v_wf(self),
            v_wf(o),
        ensures
            r == v_sub_s(self, o),
            v_wf(r),
    {
        Vec3 { x: fx_sub(self.x, o.x), y: fx_sub(self.y, o.y), z: fx_sub(self.z, o.z) }
    }

    pub fn negate(self) -> (r: Vec3)
        requires
            v_wf(self),
        ensures
            r == v_neg_s(self),
            v_wf(r),
    {
        Vec3 { x: fx_neg(self.x), y: fx_neg(self.y), z: fx_neg(self.z) }
    }

    pub fn scaled(self, s: i64) -> (r: Vec3)
        requires
            v_wf(self),
            in_range(s),
        ensures
            r == v_scale_s(self, s),
            v_wf(r),
    {
        Vec3 { x: fx_mul(self.x, s), y: fx_mul(self.y, s), z: fx_mul(self.z, s) }
    }

    pub fn div_by(self, d: i64) -> (r: Vec3)
        requires
            v_wf(self),
            in_range(d),
            d > 0,
        ensures
            r == v_div_s(self, d),
            v_wf(r),
    {
        Vec3 { x: fx_div(self.x, d), y: fx_div(self.y, d), z: fx_div(self.z, d) }
    }

    /// Euclidean length of the vector, saturated at `BOUND`.
    pub fn norm(self) -> (r: i64)
        requires
            v_wf(self),
        ensures
            r == norm_s(self),
            0 <= r <= BOUND,
    {
        let xm: u64 = if self.x < 0 { (-self.x) as u64 } else { self.x as u64 };
        let ym: u64 = if self.y < 0 { (-self.y) as u64 } else { self.y as u64 };
        let zm: u64 = if self.z < 0 { (-self.z) as u64 } else { self.z as u64 };
        proof {
            assert(xm as int == abs_i(self.x as int));
            assert(ym as int == abs_i(self.y as int));
            assert(zm as int == abs_i(self.z as int));
            lemma_abs_square(self.x as int);
            lemma_abs_square(self.y as int);
            lemma_abs_square(self.z as int);
            lemma_mul_le(xm as int, xm as int, BOUND as int, BOUND as int);
            lemma_mul_le(ym as int, ym as int, BOUND as int, BOUND as int);
            lemma_mul_le(zm as int, zm as int, BOUND as int, BOUND as int);
        }
        let sq: u128 = (xm as u128) * (xm as u128) + (ym as u128) * (ym as u128) + (zm as u128)
            * (zm as u128);
        assert(sq as int == norm_sq_s(self));
        let root: u64 = isqrt(sq);
        if root > (BOUND as u64) {
            BOUND
        } else {
            root as i64
        }
    }

    /// Exact squared distance to another point.
    pub fn dist_sq(self, o: Vec3) -> (r: u128)
        requires
            v_wf(self),
            v_wf(o),
        ensures
            r as int == dist_sq_s(self, o),
    {
        let dx: i64 = self.x - o.x;
        let dy: i64 = self.y - o.y;
        let dz: i64 = self.z - o.z;
        let xm: u64 = if dx < 0 { (-dx) as u64 } else { dx as u64 };
        let ym: u64 = if dy < 0 { (-dy) as u64 } else { dy as u64 };
        let zm: u64 = if dz < 0 { (-dz) as u64 } else { dz as u64 };
        proof {
            assert(xm as int == abs_i(dx as int));
            assert(ym as int == abs_i(dy as int));
            assert(zm as int == abs_i(dz as int));
            lemma_abs_square(dx as int);
            lemma_abs_square(dy as int);
            lemma_abs_square(dz as int);
            lemma_mul_le(xm as int, xm as int, 2 * (BOUND as int), 2 * (BOUND as int));
            lemma_mul_le(ym as int, ym as int, 2 * (BOUND as int), 2 * (BOUND as int));
            lemma_mul_le(zm as int, zm as int, 2 * (BOUND as int), 2 * (BOUND as int));
        }
        (xm as u128) * (xm as u128) + (ym as u128) * (ym as u128) + (zm as u128) * (zm as u128)
    }
}

} // verus!
