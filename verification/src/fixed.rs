use vstd::prelude::*;

verus! {

/// Scalars are fixed-point numbers: a raw `i64` that stands for the real
/// value `raw / SCALE`. One spatial unit is `SCALE` raw steps.
pub const SCALE: i64 = 65536;

/// Half of one unit, in raw steps.
pub const HALF: i64 = 32768;

/// Largest raw magnitude any scalar may take; every operation saturates here,
/// so no arithmetic ever overflows or panics.
pub const BOUND: i64 = 1099511627776;

/// A raw scalar within the saturation bound.
pub open spec fn in_range(a: i64) -> bool {
    -BOUND <= a && a <= BOUND
}

/// Saturate an unbounded integer into `[-BOUND, BOUND]`.
pub open spec fn clip(x: int) -> int {
    if x < -(BOUND as int) {
        -(BOUND as int)
    } else if x > BOUND as int {
        BOUND as int
    } else {
        x
    }
}

pub open spec fn abs_i(x: int) -> int {
    if x < 0 {
        -x
    } else {
        x
    }
}

/// Saturating scalar addition.
pub open spec fn fx_add_s(a: i64, b: i64) -> i64 {
    clip(a + b) as i64
}

/// Saturating scalar subtraction.
pub open spec fn fx_sub_s(a: i64, b: i64) -> i64 {
    clip(a - b) as i64
}

/// Saturating scalar negation.
pub open spec fn fx_neg_s(a: i64) -> i64 {
    clip(-a) as i64
}

/// Saturating fixed-point product, truncated toward zero.
pub open spec fn fx_mul_s(a: i64, b: i64) -> i64 {
    let m = (abs_i(a as int) * abs_i(b as int)) / (SCALE as int);
    clip(if (a < 0) != (b < 0) { -m } else { m }) as i64
}

/// Saturating fixed-point quotient, truncated toward zero.
/// Defined as 0 when the divisor is not positive; the executable
/// counterpart requires a positive divisor.
pub open spec fn fx_div_s(a: i64, b: i64) -> i64 {
    if b <= 0 {
        0
    } else {
        let q = (abs_i(a as int) * (SCALE as int)) / (b as int);
        clip(if a < 0 { -q } else { q }) as i64
    }
}

pub fn fx_add(a: i64, b: i64) -> (r: i64)
    requires
        in_range(a),
        in_range(b),
    ensures
        r == fx_add_s(a, b),
        in_range(r),
{
    let s: i64 = a + b;
    if s < -BOUND {
        -BOUND
    } else if s > BOUND {
        BOUND
    } else {
        s
    }
}

pub fn fx_sub(a: i64, b: i64) -> (r: i64)
    requires
        in_range(a),
        in_range(b),
    ensures
        r == fx_sub_s(a, b),
        in_range(r),
{
    let s: i64 = a - b;
    if s < -BOUND {
        -BOUND
    } else if s > BOUND {
        BOUND
    } else {
        s
    }
}

pub fn fx_neg(a: i64) -> (r: i64)
    requires
        in_range(a),
    ensures
        r == fx_neg_s(a),
        in_range(r),
{
    -a
}

pub fn fx_mul(a: i64, b: i64) -> (r: i64)
    requires
        in_range(a),
        in_range(b),
    ensures
        r == fx_mul_s(a, b),
        in_range(r),
{
    let am: u64 = if a < 0 { (-a) as u64 } else { a as u64 };
    let bm: u64 = if b < 0 { (-b) as u64 } else { b as u64 };
    assert(am as int == abs_i(a as int));
    assert(bm as int == abs_i(b as int));
    assert((am as int) * (bm as int) <= (BOUND as int) * (BOUND as int)) by (nonlinear_arith)
        requires
            0 <= am as int <= BOUND as int,
            0 <= bm as int <= BOUND as int,
    ;
    let prod: u128 = (am as u128) * (bm as u128);
    let q: u128 = prod / (SCALE as u128);
    let neg: bool = (a < 0) != (b < 0);
    let mag: i64 = if q > (BOUND as u128) {
        BOUND
    } else {
        q as i64
    };
    if neg {
        -mag
    } else {
        mag
    }
}

pub fn fx_div(a: i64, b: i64) -> (r: i64)
    requires
        in_range(a),
        in_range(b),
        b > 0,
    ensures
        r == fx_div_s(a, b),
        in_range(r),
{
    let am: u64 = if a < 0 { (-a) as u64 } else { a as u64 };
    assert(am as int == abs_i(a as int));
    assert((am as int) * (SCALE as int) <= (BOUND as int) * (SCALE as int)) by (nonlinear_arith)
        requires
            0 <= am as int <= BOUND as int,
            SCALE as int > 0,
    ;
    let prod: u128 = (am as u128) * (SCALE as u128);
    let q: u128 = prod / (b as u128);
    let mag: i64 = if q > (BOUND as u128) {
        BOUND
    } else {
        q as i64
    };
    if a < 0 {
        -mag
    } else {
        mag
    }
}

/// A whole number of spatial units as a fixed-point scalar.
pub open spec fn fx_of_s(n: int) -> i64 {
    clip(n * (SCALE as int)) as i64
}

pub fn fx_of(n: usize) -> (r: i64)
    ensures
        r == fx_of_s(n as int),
        in_range(r),
        0 <= r,
        n >= 1 ==> r >= SCALE,
{
    assert((n as int) * (SCALE as int) < 0x100000000000000000000) by (nonlinear_arith)
        requires
            0 <= n as int <= 0xffffffffffffffff,
    ;
    assert(n >= 1 ==> (n as int) * (SCALE as int) >= SCALE as int) by (nonlinear_arith)
        requires
            0 <= n as int,
    ;
    let v: u128 = (n as u128) * (SCALE as u128);
    if v > (BOUND as u128) {
        BOUND
    } else {
        v as i64
    }
}

/// Squaring ignores sign.
pub proof fn lemma_abs_square(x: int)
    ensures
        abs_i(x) * abs_i(x) == x * x,
{
    assert(abs_i(x) * abs_i(x) == x * x) by (nonlinear_arith);
}

/// Products of bounded non-negative factors are bounded.
pub proof fn lemma_mul_le(a: int, b: int, c: int, d: int)
    requires
        0 <= a <= c,
        0 <= b <= d,
    ensures
        a * b <= c * d,
{
    assert(a * b <= c * d) by (nonlinear_arith)
        requires
            0 <= a <= c,
            0 <= b <= d,
    ;
}

/// The integer square root, as a total mathematical function.
pub open spec fn isqrt_s(n: nat) -> nat
    decreases n,
{
    if n == 0 {
        0
    } else {
        let p = isqrt_s((n - 1) as nat);
        if (p + 1) * (p + 1) <= n {
            p + 1
        } else {
            p
        }
    }
}

/// `isqrt_s(n)` is the largest integer whose square is at most `n`.
pub proof fn lemma_isqrt_bounds(n: nat)
    ensures
        isqrt_s(n) * isqrt_s(n) <= n,
        n < (isqrt_s(n) + 1) * (isqrt_s(n) + 1),
    decreases n,
{
    if n == 0 {
        assert(isqrt_s(0) == 0);
        assert((isqrt_s(n) + 1) * (isqrt_s(n) + 1) == 1) by (nonlinear_arith)
            requires
                isqrt_s(n) == 0,
        ;
    } else {
        lemma_isqrt_bounds((n - 1) as nat);
        let p = isqrt_s((n - 1) as nat);
        if (p + 1) * (p + 1) <= n {
            assert(isqrt_s(n) == p + 1);
            assert(n <= (p + 1) * (p + 1));
            assert((p + 2) * (p + 2) > (p + 1) * (p + 1)) by (nonlinear_arith)
                requires
                    p >= 0,
            ;
            assert(n < (isqrt_s(n) + 1) * (isqrt_s(n) + 1));
        } else {
            assert(isqrt_s(n) == p);
            assert(p * p <= n);
            assert(n < (p + 1) * (p + 1));
        }
    }
}

/// Any integer satisfying the square-root bracketing is `isqrt_s(n)`.
pub proof fn lemma_isqrt_unique(n: nat, r: nat)
    requires
        r * r <= n,
        n < (r + 1) * (r + 1),
    ensures
        r == isqrt_s(n),
{
    lemma_isqrt_bounds(n);
    let q = isqrt_s(n);
    if r < q {
        assert((r + 1) * (r + 1) <= q * q) by (nonlinear_arith)
            requires
                0 <= r,
                r + 1 <= q,
        ;
    } else if q < r {
        assert((q + 1) * (q + 1) <= r * r) by (nonlinear_arith)
            requires
                0 <= q,
                q + 1 <= r,
        ;
    }
}

/// The square root of a perfect square is exact.
pub proof fn lemma_isqrt_square(k: nat)
    ensures
        isqrt_s(k * k) == k,
{
    assert(k * k < (k + 1) * (k + 1)) by (nonlinear_arith)
        requires
            k >= 0,
    ;
    lemma_isqrt_unique(k * k, k);
}

/// Binary-search integer square root.
pub fn isqrt(n: u128) -> (r: u64)
    requires
        n < 0x1000000000000000000000000,
    ensures
        r as nat == isqrt_s(n as nat),
        (r as int) * (r as int) <= n as int,
        (n as int) < ((r as int) + 1) * ((r as int) + 1),
{
    let mut lo: u128 = 0;
    let mut hi: u128 = 0x1000000000000;
    assert((0x1000000000000 as int) * (0x1000000000000 as int) == 0x1000000000000000000000000)
        by (nonlinear_arith);
    while lo + 1 < hi
        invariant
            0 <= lo < hi <= 0x1000000000000,
            (lo as int) * (lo as int) <= n as int,
            (n as int) < (hi as int) * (hi as int),
        decreases hi - lo,
    {
        let mid: u128 = lo + (hi - lo) / 2;
        assert(lo < mid < hi);
        assert(mid * mid < 0x1000000000000000000000000) by (nonlinear_arith)
            requires
                0 <= mid < 0x1000000000000,
        ;
        if mid * mid <= n {
            lo = mid;
        } else {
            hi = mid;
        }
    }
    proof {
        lemma_isqrt_unique(n as nat, lo as nat);
    }
    lo as u64
}

} // verus!
