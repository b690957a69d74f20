//! Integer 3D vectors in millimetres, distances and straight-line travel.

use vstd::arithmetic::div_mod::lemma_fundamental_div_mod;
use vstd::prelude::*;

verus! {

/// A point or displacement in millimetres.
#[derive(Clone, Copy, Debug, PartialEq, Eq, Structural)]
pub struct Vec3 {
    pub x: i32,
    pub y: i32,
    pub z: i32,
}

pub open spec fn fits_i32(v: int) -> bool {
    i32::MIN <= v <= i32::MAX
}

/// Whether `a + b` can be written as a `Vec3`.
pub open spec fn add_fits(a: Vec3, b: Vec3) -> bool {
    fits_i32(a.x + b.x) && fits_i32(a.y + b.y) && fits_i32(a.z + b.z)
}

/// Whether `a - b` can be written as a `Vec3`.
pub open spec fn sub_fits(a: Vec3, b: Vec3) -> bool {
    fits_i32(a.x - b.x) && fits_i32(a.y - b.y) && fits_i32(a.z - b.z)
}

pub open spec fn vadd(a: Vec3, b: Vec3) -> Vec3 {
    Vec3 { x: (a.x + b.x) as i32, y: (a.y + b.y) as i32, z: (a.z + b.z) as i32 }
}

pub open spec fn vsub(a: Vec3, b: Vec3) -> Vec3 {
    Vec3 { x: (a.x - b.x) as i32, y: (a.y - b.y) as i32, z: (a.z - b.z) as i32 }
}

pub open spec fn is_zero(v: Vec3) -> bool {
    v.x == 0 && v.y == 0 && v.z == 0
}

/// Squared Euclidean length of `v`.
pub open spec fn norm_sq(v: Vec3) -> int {
    v.x * v.x + v.y * v.y + v.z * v.z
}

/// Squared Euclidean distance between `a` and `b`.
pub open spec fn dist_sq(a: Vec3, b: Vec3) -> int {
    (a.x - b.x) * (a.x - b.x) + (a.y - b.y) * (a.y - b.y) + (a.z - b.z) * (a.z - b.z)
}

/// `r` is the integer square root of `n`: the largest whole number whose
/// square does not exceed `n`.
pub open spec fn is_isqrt(n: int, r: int) -> bool {
    0 <= r && r * r <= n < (r + 1) * (r + 1)
}

/// The integer square root of `n`.
pub open spec fn sqrt_floor(n: int) -> int {
    choose|r: int| is_isqrt(n, r)
}

/// Every non-negative number has an integer square root.
pub proof fn lemma_isqrt_exists(n: int)
    requires
        n >= 0,
    ensures
        is_isqrt(n, sqrt_floor(n)),
    decreases n,
{
    if n == 0 {
        assert(is_isqrt(0, 0));
    } else {
        lemma_isqrt_exists(n - 1);
        let r = sqrt_floor(n - 1);
        if (r + 1) * (r + 1) <= n {
            assert((r + 2) * (r + 2) == (r + 1) * (r + 1) + 2 * r + 3) by (nonlinear_arith);
            assert(is_isqrt(n, r + 1));
        } else {
            assert(is_isqrt(n, r));
        }
    }
}

/// A number has one integer square root.
pub proof fn lemma_isqrt_unique(n: int, r: int)
    requires
        is_isqrt(n, r),
    ensures
        sqrt_floor(n) == r,
{
    let s = sqrt_floor(n);
    assert(is_isqrt(n, s));
    assert(s == r) by (nonlinear_arith)
        requires
            is_isqrt(n, s),
            is_isqrt(n, r),
    {
        if s < r {
            assert((s + 1) * (s + 1) <= r * r) by (nonlinear_arith)
                requires
                    0 <= s + 1 <= r,
            ;
        } else if r < s {
            assert((r + 1) * (r + 1) <= s * s) by (nonlinear_arith)
                requires
                    0 <= r + 1 <= s,
            ;
        }
    }
}

/// Absolute value.
pub open spec fn abs(v: int) -> int {
    if v < 0 {
        -v
    } else {
        v
    }
}

/// The product `|c| * speed * t`: how far, in thousandths of a millimetre
/// times the direction's length, a body moving at `speed` millimetres per
/// second for `t` milliseconds travels along a component `c`.
pub open spec fn sweep(c: int, speed: int, t: int) -> int {
    abs(c) * speed * t
}

/// Magnitude of the distance, in whole millimetres rounded down, covered
/// along component `c` of a direction whose squared length is `d2`, at
/// `speed` millimetres per second for `t` milliseconds: the real number
/// `|c| * speed * t / (1000 * sqrt(d2))`, rounded down.
pub open spec fn reach_mag(c: int, d2: int, speed: int, t: int) -> int {
    let x = sweep(c, speed, t);
    sqrt_floor((x * x) / (1000000 * d2))
}

/// The signed distance along component `c`, rounded toward zero.
pub open spec fn reach(c: int, d2: int, speed: int, t: int) -> int {
    if c >= 0 {
        reach_mag(c, d2, speed, t)
    } else {
        -reach_mag(c, d2, speed, t)
    }
}

/// Whether `reach` can be computed in 128-bit arithmetic: the sweep stays
/// below 2^64.
pub open spec fn reach_fits(c: int, speed: int, t: int) -> bool {
    sweep(c, speed, t) < 0x1_0000_0000_0000_0000int
}

/// Nothing is covered in no time.
pub proof fn lemma_reach_zero(c: int, d2: int, speed: int)
    requires
        d2 > 0,
    ensures
        reach(c, d2, speed, 0) == 0,
        reach_fits(c, speed, 0),
{
    assert(sweep(c, speed, 0) == 0) by (nonlinear_arith);
    assert(0int / (1000000 * d2) == 0) by (nonlinear_arith)
        requires
            d2 > 0,
    ;
    lemma_isqrt_unique(0, 0);
}

/// `reach_mag` is the real distance `|c| * speed * t / (1000 * |d|)`
/// rounded down: its square times `10^6 * d2` does not exceed the squared
/// sweep, and the square of the next whole number times `10^6 * d2` does.
pub proof fn lemma_reach_rounds_down(c: int, d2: int, speed: int, t: int)
    requires
        d2 > 0,
        speed >= 0,
        t >= 0,
    ensures
        ({
            let q = reach_mag(c, d2, speed, t);
            let x = sweep(c, speed, t);
            &&& q >= 0
            &&& q * q * (1000000 * d2) <= x * x
            &&& x * x < (q + 1) * (q + 1) * (1000000 * d2)
        }),
{
    let x = sweep(c, speed, t);
    let m = 1000000 * d2;
    let n = x * x;
    assert(n >= 0) by (nonlinear_arith)
        requires
            n == x * x,
    ;
    let f = n / m;
    lemma_fundamental_div_mod(n, m);
    lemma_isqrt_exists(f);
    let q = sqrt_floor(f);
    assert(f >= 0);
    assert(q * q * m <= n) by (nonlinear_arith)
        requires
            q * q <= f,
            n == m * f + n % m,
            n % m >= 0,
            m > 0,
    ;
    assert(n < (q + 1) * (q + 1) * m) by (nonlinear_arith)
        requires
            f + 1 <= (q + 1) * (q + 1),
            n == m * f + n % m,
            n % m < m,
            m > 0,
    ;
}

/// `a + b`, or `None` where a component leaves the range of `i32`.
pub fn checked_add(a: Vec3, b: Vec3) -> (r: Option<Vec3>)
    ensures
        r == (if add_fits(a, b) {
            Some(vadd(a, b))
        } else {
            None::<Vec3>
        }),
{
    let x = a.x as i64 + b.x as i64;
    let y = a.y as i64 + b.y as i64;
    let z = a.z as i64 + b.z as i64;
    if x < i32::MIN as i64 || x > i32::MAX as i64 || y < i32::MIN as i64 || y > i32::MAX as i64
        || z < i32::MIN as i64 || z > i32::MAX as i64 {
        None
    } else {
        Some(Vec3 { x: x as i32, y: y as i32, z: z as i32 })
    }
}

/// `a - b`, or `None` where a component leaves the range of `i32`.
pub fn checked_sub(a: Vec3, b: Vec3) -> (r: Option<Vec3>)
    ensures
        r == (if sub_fits(a, b) {
            Some(vsub(a, b))
        } else {
            None::<Vec3>
        }),
{
    let x = a.x as i64 - b.x as i64;
    let y = a.y as i64 - b.y as i64;
    let z = a.z as i64 - b.z as i64;
    if x < i32::MIN as i64 || x > i32::MAX as i64 || y < i32::MIN as i64 || y > i32::MAX as i64
        || z < i32::MIN as i64 || z > i32::MAX as i64 {
        None
    } else {
        Some(Vec3 { x: x as i32, y: y as i32, z: z as i32 })
    }
}

/// The square of a difference of two `i32`, which always fits in `u128`.
fn diff_sq(a: i32, b: i32) -> (r: u128)
    ensures
        r == (a - b) * (a - b),
        r <= 0x1_0000_0000_0000_0000u128,
{
    let d: i64 = a as i64 - b as i64;
    let m: u64 = if d < 0 {
        (-d) as u64
    } else {
        d as u64
    };
    assert(m * m <= 0x1_0000_0000_0000_0000int) by (nonlinear_arith)
        requires
            m <= 0x1_0000_0000int,
    ;
    assert((a - b) * (a - b) == m * m) by (nonlinear_arith)
        requires
            m == a - b || m == b - a,
    ;
    (m as u128) * (m as u128)
}

/// Squared Euclidean distance between two points.
pub fn distance_squared(a: Vec3, b: Vec3) -> (r: u128)
    ensures
        r == dist_sq(a, b),
        r <= 0x3_0000_0000_0000_0000u128,
{
    diff_sq(a.x, b.x) + diff_sq(a.y, b.y) + diff_sq(a.z, b.z)
}

/// Integer square root by bisection.
pub fn isqrt(n: u128) -> (r: u128)
    ensures
        is_isqrt(n as int, r as int),
        r == sqrt_floor(n as int),
{
    let mut lo: u128 = 0;
    let mut hi: u128 = 0x1_0000_0000_0000_0000;
    assert(n < hi * hi) by (nonlinear_arith)
        requires
            hi == 0x1_0000_0000_0000_0000int,
            n <= u128::MAX,
    ;
    while hi - lo > 1
        invariant
            lo < hi <= 0x1_0000_0000_0000_0000u128,
            lo * lo <= n < hi * hi,
        decreases hi - lo,
    {
        let mid = lo + (hi - lo) / 2;
        assert(mid * mid <= 0xffff_ffff_ffff_ffff_ffff_ffff_ffff_ffffint) by (nonlinear_arith)
            requires
                mid < 0x1_0000_0000_0000_0000int,
                mid >= 0,
        ;
        if mid * mid <= n {
            lo = mid;
        } else {
            hi = mid;
        }
    }
    assert(hi == lo + 1);
    proof {
        lemma_isqrt_unique(n as int, lo as int);
    }
    lo
}

/// The signed distance along component `c` of a direction whose squared
/// length is `d2`, at `speed` for `t` milliseconds, rounded toward zero;
/// `None` where the sweep reaches 2^64.
pub fn reach_component(c: i32, d2: u128, speed: u32, t: u64) -> (r: Option<i128>)
    requires
        0 < d2 <= 0x3_0000_0000_0000_0000u128,
    ensures
        match r {
            Some(q) => reach_fits(c as int, speed as int, t as int) && q == reach(
                c as int,
                d2 as int,
                speed as int,
                t as int,
            ),
            None => !reach_fits(c as int, speed as int, t as int),
        },
{
    let m: u64 = if c < 0 {
        (-(c as i64)) as u64
    } else {
        c as u64
    };
    assert(m * speed <= 0x8000_0000int * 0xffff_ffffint) by (nonlinear_arith)
        requires
            m <= 0x8000_0000int,
            speed <= 0xffff_ffffint,
    ;
    let ms: u128 = (m as u128) * (speed as u128);
    assert(ms * t <= 0x8000_0000int * 0xffff_ffffint * 0xffff_ffff_ffff_ffffint) by (nonlinear_arith)
        requires
            ms <= 0x8000_0000int * 0xffff_ffffint,
            t <= 0xffff_ffff_ffff_ffffint,
    ;
    let x: u128 = ms * (t as u128);
    assert(x == sweep(c as int, speed as int, t as int));
    if x >= 0x1_0000_0000_0000_0000u128 {
        return None;
    }
    assert(x * x < 0x1_0000_0000_0000_0000_0000_0000_0000_0000int) by (nonlinear_arith)
        requires
            0 <= x < 0x1_0000_0000_0000_0000int,
    ;
    let n: u128 = x * x;
    let f: u128 = n / (1000000 * d2);
    let q: u128 = isqrt(f);
    assert(q <= 0x1_0000_0000_0000_0000int) by (nonlinear_arith)
        requires
            q * q <= f,
            f <= n,
            n < 0x1_0000_0000_0000_0000_0000_0000_0000_0000int,
            q >= 0,
    ;
    if c < 0 {
        Some(-(q as i128))
    } else {
        Some(q as i128)
    }
}

} // verus!
