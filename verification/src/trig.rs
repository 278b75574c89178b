use vstd::prelude::*;
use vstd::arithmetic::div_mod::lemma_div_is_ordered;
use vstd::arithmetic::div_mod::lemma_div_multiples_vanish;
use vstd::arithmetic::div_mod::lemma_div_pos_is_pos;

verus! {

// Angles are measured in milliradians. A full turn is TWO_PI_MRAD; sines and
// cosines are scaled by 1000, so a unit vector has coordinates in
// [-1000, 1000].
pub const PI_MRAD: i64 = 3142;
pub const TWO_PI_MRAD: i64 = 6283;
pub const HALF_PI_MRAD: i64 = 1571;

/// Rational approximation of the sine on the first half turn, scaled by
/// 1000: for x in [0, 3142] milliradians this is
/// `1000 * 16x(3142 - x) / (5 * 3142^2 - 4x(3142 - x))`.
pub open spec fn half_sine(x: int) -> int {
    (1000 * (16 * (x * (3142 - x)))) / (5 * 3142 * 3142 - 4 * (x * (3142 - x)))
}

/// The sine of an angle in [0, TWO_PI_MRAD], scaled by 1000.
pub open spec fn sin_approx(a: int) -> int {
    if a <= 3142 {
        half_sine(a)
    } else {
        -half_sine(a - 3142)
    }
}

/// The cosine of an angle in [0, TWO_PI_MRAD], scaled by 1000: the sine a
/// quarter turn further along.
pub open spec fn cos_approx(a: int) -> int {
    if a + 1571 >= 6283 {
        sin_approx(a + 1571 - 6283)
    } else {
        sin_approx(a + 1571)
    }
}

/// Product `x * (3142 - x)` stays within `[0, 1571 * 1571]` on `[0, 3142]`.
proof fn lemma_hump_bounds(x: int)
    requires
        0 <= x <= 3142,
    ensures
        0 <= x * (3142 - x) <= 2468041,
{
    assert(0 <= x * (3142 - x)) by (nonlinear_arith)
        requires 0 <= x <= 3142;
    assert(x * (3142 - x) <= 2468041) by (nonlinear_arith)
        requires 0 <= x <= 3142;
}

fn sine_half_turn(x: i64) -> (r: i64)
    requires
        0 <= x <= 3142,
    ensures
        r == half_sine(x as int),
        0 <= r <= 1000,
{
    let xu: u64 = x as u64;
    proof { lemma_hump_bounds(x as int); }
    let p: u64 = xu * (3142 - xu);
    let num: u64 = 16000 * p;
    let den: u64 = 49360820 - 4 * p;
    let q: u64 = num / den;
    proof {
        lemma_div_pos_is_pos(num as int, den as int);
        lemma_div_is_ordered(num as int, 1000 * (den as int), den as int);
        lemma_div_multiples_vanish(1000, den as int);
    }
    q as i64
}

/// The sine of an angle in [0, TWO_PI_MRAD] milliradians, scaled by 1000.
pub fn sin_mrad(a: i64) -> (r: i64)
    requires
        0 <= a <= TWO_PI_MRAD,
    ensures
        r == sin_approx(a as int),
        -1000 <= r <= 1000,
{
    if a <= 3142 {
        sine_half_turn(a)
    } else {
        -sine_half_turn(a - 3142)
    }
}

/// The cosine of an angle in [0, TWO_PI_MRAD] milliradians, scaled by 1000.
pub fn cos_mrad(a: i64) -> (r: i64)
    requires
        0 <= a <= TWO_PI_MRAD,
    ensures
        r == cos_approx(a as int),
        -1000 <= r <= 1000,
{
    let b: i64 = a + 1571;
    if b >= 6283 {
        sin_mrad(b - 6283)
    } else {
        sin_mrad(b)
    }
}

/// Approximate arctangent of `num / den` for `0 <= num <= den`, in
/// milliradians: `z = 1000 num / den`, then
/// `(785 z + 273 z (1000 - z) / 1000) / 1000`.
pub open spec fn atan_frac(num: int, den: int) -> int {
    let z = (1000 * num) / den;
    (785 * z + (273 * (z * (1000 - z))) / 1000) / 1000
}

fn atan_frac_exec(num: u64, den: u64) -> (r: i64)
    requires
        0 < den <= 0x4000_0000_0000_0000u64 / 1000,
        num <= den,
    ensures
        r == atan_frac(num as int, den as int),
        0 <= r <= 853,
{
    let zn: u64 = 1000 * num;
    let z: u64 = zn / den;
    proof {
        lemma_div_pos_is_pos(zn as int, den as int);
        lemma_div_is_ordered(zn as int, 1000 * (den as int), den as int);
        lemma_div_multiples_vanish(1000, den as int);
        assert(z * (1000 - z) <= 250000) by (nonlinear_arith)
            requires 0 <= z <= 1000;
        assert(0 <= z * (1000 - z)) by (nonlinear_arith)
            requires 0 <= z <= 1000;
    }
    let swing: u64 = (273 * (z * (1000 - z))) / 1000;
    let t: u64 = (785 * z + swing) / 1000;
    proof {
        lemma_div_pos_is_pos((273 * (z * (1000 - z))) as int, 1000);
        lemma_div_is_ordered((273 * ((z * (1000 - z)) as int)) as int, (273 * 250000) as int, 1000);
        lemma_div_pos_is_pos((785 * z + swing) as int, 1000);
        lemma_div_is_ordered((785 * (z as int) + swing) as int, 853250, 1000);
    }
    t as i64
}

/// The direction from the origin to the point `(dx, dy)`, in milliradians in
/// `[0, TWO_PI_MRAD)`, with the angle growing from the positive x axis
/// toward the positive y axis. The origin itself maps to 0.
pub open spec fn bearing(dx: int, dy: int) -> int {
    if dx == 0 && dy == 0 {
        0
    } else {
        let ax = if dx < 0 { -dx } else { dx };
        let ay = if dy < 0 { -dy } else { dy };
        let base = if ay <= ax { atan_frac(ay, ax) } else { 1571 - atan_frac(ax, ay) };
        let q = if dx >= 0 && dy >= 0 {
            base
        } else if dx < 0 && dy >= 0 {
            3142 - base
        } else if dx < 0 && dy < 0 {
            3142 + base
        } else {
            6283 - base
        };
        if q >= 6283 { q - 6283 } else { q }
    }
}

/// `atan_frac` stays within a quarter turn on its intended domain.
proof fn lemma_atan_frac_range(num: int, den: int)
    requires
        0 < den,
        0 <= num <= den,
    ensures
        0 <= atan_frac(num, den) <= 853,
{
    let z = (1000 * num) / den;
    lemma_div_pos_is_pos(1000 * num, den);
    lemma_div_is_ordered(1000 * num, 1000 * den, den);
    lemma_div_multiples_vanish(1000, den);
    assert(z * (1000 - z) <= 250000) by (nonlinear_arith)
        requires 0 <= z <= 1000;
    assert(0 <= z * (1000 - z)) by (nonlinear_arith)
        requires 0 <= z <= 1000;
    lemma_div_pos_is_pos(273 * (z * (1000 - z)), 1000);
    lemma_div_is_ordered(273 * (z * (1000 - z)), (273 * 250000) as int, 1000);
    lemma_div_pos_is_pos(785 * z + (273 * (z * (1000 - z))) / 1000, 1000);
    lemma_div_is_ordered(785 * z + (273 * (z * (1000 - z))) / 1000, 853250, 1000);
}

/// The bearing always lands inside one full turn.
pub proof fn lemma_bearing_range(dx: int, dy: int)
    ensures
        0 <= bearing(dx, dy) < 6283,
{
    if dx == 0 && dy == 0 {
    } else {
        let ax = if dx < 0 { -dx } else { dx };
        let ay = if dy < 0 { -dy } else { dy };
        if ay <= ax {
            lemma_atan_frac_range(ay, ax);
        } else {
            lemma_atan_frac_range(ax, ay);
        }
    }
}

/// The direction from the origin to `(dx, dy)` in milliradians, for
/// coordinates inside twice the arena bound.
pub fn bearing_mrad(dx: i64, dy: i64) -> (r: i64)
    requires
        -4_000_000_000_000 <= dx <= 4_000_000_000_000,
        -4_000_000_000_000 <= dy <= 4_000_000_000_000,
    ensures
        r == bearing(dx as int, dy as int),
        0 <= r < TWO_PI_MRAD,
{
    proof { lemma_bearing_range(dx as int, dy as int); }
    if dx == 0 && dy == 0 {
        return 0;
    }
    let ax: u64 = if dx < 0 { (-dx) as u64 } else { dx as u64 };
    let ay: u64 = if dy < 0 { (-dy) as u64 } else { dy as u64 };
    let base: i64 = if ay <= ax {
        atan_frac_exec(ay, ax)
    } else {
        1571 - atan_frac_exec(ax, ay)
    };
    let q: i64 = if dx >= 0 && dy >= 0 {
        base
    } else if dx < 0 && dy >= 0 {
        3142 - base
    } else if dx < 0 && dy < 0 {
        3142 + base
    } else {
        6283 - base
    };
    if q >= 6283 { q - 6283 } else { q }
}

} // verus!
