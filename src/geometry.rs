//! Fixed-point angles and the integer sine used for all motion.
use vstd::prelude::*;

verus! {

/// One full turn, in thousandths of a degree.
pub const FULL_TURN: i64 = 360_000;

/// Half a turn, in thousandths of a degree.
pub const HALF_TURN: i64 = 180_000;

/// A quarter turn, in thousandths of a degree.
pub const QUARTER_TURN: i64 = 90_000;

/// The denominator constant of the rational sine approximation, scaled to
/// thousandths of a degree: `40500 * 1000 * 1000`.
pub const SINE_DENOMINATOR: i128 = 40_500_000_000;

/// An angle already reduced into `[0, FULL_TURN)`.
pub open spec fn is_heading(a: int) -> bool {
    0 <= a < FULL_TURN
}

/// Reduction of an angle into `[0, FULL_TURN)`.
pub open spec fn normalized(a: int) -> int {
    a % (FULL_TURN as int)
}

/// `amplitude * sin(a)` for `a` in `[0, HALF_TURN]`, by Bhaskara's rational
/// approximation `4a(180 - a) / (40500 - a(180 - a))` (degrees), rounded
/// towards zero.
pub open spec fn half_sine(a: int, amplitude: int) -> int {
    let p = a * (HALF_TURN - a);
    (amplitude * (4 * p)) / (SINE_DENOMINATOR - p)
}

/// `amplitude * sin(a)`.
pub open spec fn sine(a: int, amplitude: int) -> int {
    let h = normalized(a);
    if h < HALF_TURN {
        half_sine(h, amplitude)
    } else {
        -half_sine(h - HALF_TURN, amplitude)
    }
}

/// `amplitude * cos(a)`: the sine a quarter turn later.
pub open spec fn cosine(a: int, amplitude: int) -> int {
    sine(a + QUARTER_TURN, amplitude)
}

/// Reduction lands in `[0, FULL_TURN)` and leaves headings unchanged.
pub proof fn lemma_normalized_heading(a: int)
    ensures
        is_heading(normalized(a)),
        is_heading(a) ==> normalized(a) == a,
{
    lemma_normalized_shift(a, 0);
    if is_heading(a) {
        vstd::arithmetic::div_mod::lemma_small_mod(a as nat, FULL_TURN as nat);
    }
}

proof fn lemma_normalized_shift(a: int, b: int)
    ensures
        normalized(normalized(a) + b) == normalized(a + b),
        is_heading(normalized(a)),
{
    vstd::arithmetic::div_mod::lemma_add_mod_noop(a, b, FULL_TURN as int);
    vstd::arithmetic::div_mod::lemma_add_mod_noop(normalized(a), b, FULL_TURN as int);
    vstd::arithmetic::div_mod::lemma_mod_twice(a, FULL_TURN as int);
    vstd::arithmetic::div_mod::lemma_mod_bound(a, FULL_TURN as int);
}

proof fn lemma_half_sine_bounds(a: int, amplitude: int)
    requires
        0 <= a <= HALF_TURN,
        0 <= amplitude,
    ensures
        0 <= a * (HALF_TURN - a) <= 8_100_000_000,
        0 <= half_sine(a, amplitude) <= amplitude,
{
    let p = a * (HALF_TURN - a);
    assert(0 <= p <= 8_100_000_000) by (nonlinear_arith)
        requires
            0 <= a <= 180_000,
            p == a * (180_000 - a),
    ;
    let n = amplitude * (4 * p);
    let d = SINE_DENOMINATOR - p;
    assert(0 <= n <= amplitude * d) by (nonlinear_arith)
        requires
            0 <= amplitude,
            0 <= p <= 8_100_000_000,
            n == amplitude * (4 * p),
            d == 40_500_000_000 - p,
    ;
    assert(0 <= n / d <= amplitude) by (nonlinear_arith)
        requires
            0 <= n <= amplitude * d,
            d > 0,
    ;
}

/// The sine is bounded by its amplitude.
pub proof fn lemma_sine_bounds(a: int, amplitude: int)
    requires
        0 <= amplitude,
    ensures
        -amplitude <= sine(a, amplitude) <= amplitude,
        -amplitude <= cosine(a, amplitude) <= amplitude,
{
    lemma_normalized_shift(a, 0);
    lemma_normalized_shift(a + QUARTER_TURN, 0);
    let h = normalized(a);
    if h < HALF_TURN {
        lemma_half_sine_bounds(h, amplitude);
    } else {
        lemma_half_sine_bounds(h - HALF_TURN, amplitude);
    }
    let c = normalized(a + QUARTER_TURN);
    if c < HALF_TURN {
        lemma_half_sine_bounds(c, amplitude);
    } else {
        lemma_half_sine_bounds(c - HALF_TURN, amplitude);
    }
}

proof fn lemma_half_shift(a: int)
    ensures
        normalized(a + HALF_TURN) == if normalized(a) < HALF_TURN {
            normalized(a) + HALF_TURN
        } else {
            normalized(a) - HALF_TURN
        },
{
    lemma_normalized_shift(a, HALF_TURN as int);
    let h = normalized(a);
    if h < HALF_TURN {
        vstd::arithmetic::div_mod::lemma_small_mod((h + HALF_TURN) as nat, FULL_TURN as nat);
    } else {
        vstd::arithmetic::div_mod::lemma_mod_sub_multiples_vanish(h + HALF_TURN, FULL_TURN as int);
        vstd::arithmetic::div_mod::lemma_small_mod((h - HALF_TURN) as nat, FULL_TURN as nat);
    }
}

/// Half a turn later, sine and cosine change sign exactly.
pub proof fn lemma_opposite_heading(a: int, amplitude: int)
    ensures
        sine(a + HALF_TURN, amplitude) == -sine(a, amplitude),
        cosine(a + HALF_TURN, amplitude) == -cosine(a, amplitude),
{
    lemma_half_shift(a);
    lemma_half_shift(a + QUARTER_TURN);
    assert(a + HALF_TURN + QUARTER_TURN == a + QUARTER_TURN + HALF_TURN);
}

/// The sine of the eight multiples of 45 degrees, for amplitude 5000.
pub proof fn lemma_sine_eighths()
    ensures
        sine(0, 5000) == 0,
        sine(45_000, 5000) == 3529,
        sine(90_000, 5000) == 5000,
        sine(135_000, 5000) == 3529,
        sine(180_000, 5000) == 0,
        sine(225_000, 5000) == -3529,
        sine(270_000, 5000) == -5000,
        sine(315_000, 5000) == -3529,
        sine(360_000, 5000) == 0,
        sine(405_000, 5000) == 3529,
{
    assert(45_000 * (HALF_TURN - 45_000) == 6_075_000_000);
    assert(135_000 * (HALF_TURN - 135_000) == 6_075_000_000);
    assert(90_000 * (HALF_TURN - 90_000) == 8_100_000_000);
    vstd::arithmetic::div_mod::lemma_fundamental_div_mod_converse(
        121_500_000_000_000,
        34_425_000_000,
        3529,
        14_175_000_000,
    );
    vstd::arithmetic::div_mod::lemma_fundamental_div_mod_converse(
        162_000_000_000_000,
        32_400_000_000,
        5000,
        0,
    );
    vstd::arithmetic::div_mod::lemma_small_mod(0, FULL_TURN as nat);
    vstd::arithmetic::div_mod::lemma_small_mod(45_000, FULL_TURN as nat);
    vstd::arithmetic::div_mod::lemma_small_mod(90_000, FULL_TURN as nat);
    vstd::arithmetic::div_mod::lemma_small_mod(135_000, FULL_TURN as nat);
    vstd::arithmetic::div_mod::lemma_small_mod(180_000, FULL_TURN as nat);
    vstd::arithmetic::div_mod::lemma_small_mod(225_000, FULL_TURN as nat);
    vstd::arithmetic::div_mod::lemma_small_mod(270_000, FULL_TURN as nat);
    vstd::arithmetic::div_mod::lemma_small_mod(315_000, FULL_TURN as nat);
    lemma_half_shift(180_000);
    lemma_half_shift(225_000);
    assert(half_sine(0, 5000) == 0);
}

/// Reduces an angle into `[0, FULL_TURN)`.
pub fn normalize(a: i64) -> (r: i64)
    ensures
        r == normalized(a as int),
        is_heading(r as int),
{
    proof {
        lemma_normalized_shift(a as int, 0);
    }
    match a.checked_rem_euclid(FULL_TURN) {
        Some(d) => d,
        None => 0,
    }
}

/// Reduces `a + delta` into `[0, FULL_TURN)`.
pub fn turn_heading(a: i64, delta: i64) -> (r: i64)
    requires
        is_heading(a as int),
    ensures
        r == normalized(a + delta),
        is_heading(r as int),
{
    let d = match delta.checked_rem_euclid(FULL_TURN) {
        Some(d) => d,
        None => 0,
    };
    assert(d == normalized(delta as int));
    let s = a + d;
    assert(normalized(a + delta) == normalized(a + d)) by {
        vstd::arithmetic::div_mod::lemma_add_mod_noop(a as int, delta as int, FULL_TURN as int);
        vstd::arithmetic::div_mod::lemma_add_mod_noop(a as int, d as int, FULL_TURN as int);
        vstd::arithmetic::div_mod::lemma_mod_twice(delta as int, FULL_TURN as int);
        vstd::arithmetic::div_mod::lemma_small_mod(a as nat, FULL_TURN as nat);
    }
    if s >= FULL_TURN {
        assert(normalized(s as int) == s - FULL_TURN) by {
            vstd::arithmetic::div_mod::lemma_mod_sub_multiples_vanish(s as int, FULL_TURN as int);
            vstd::arithmetic::div_mod::lemma_small_mod((s - FULL_TURN) as nat, FULL_TURN as nat);
        }
        s - FULL_TURN
    } else {
        assert(normalized(s as int) == s) by {
            vstd::arithmetic::div_mod::lemma_small_mod(s as nat, FULL_TURN as nat);
        }
        s
    }
}

fn half_sine_exec(a: i64, amplitude: i64) -> (r: i64)
    requires
        0 <= a <= HALF_TURN,
        0 <= amplitude,
    ensures
        r == half_sine(a as int, amplitude as int),
{
    proof {
        lemma_half_sine_bounds(a as int, amplitude as int);
    }
    let p: i128 = (a as i128) * ((HALF_TURN - a) as i128);
    assert((amplitude as i128) * (4 * p) <= 9_223_372_036_854_775_807 * 32_400_000_000)
        by (nonlinear_arith)
        requires
            0 <= amplitude <= 9_223_372_036_854_775_807,
            0 <= p <= 8_100_000_000,
    ;
    let n: i128 = (amplitude as i128) * (4 * p);
    let q: i128 = n / (SINE_DENOMINATOR - p);
    q as i64
}

/// `amplitude * sin(a)`, as `sine` states it.
pub fn scaled_sine(a: i64, amplitude: i64) -> (r: i64)
    requires
        0 <= amplitude,
    ensures
        r == sine(a as int, amplitude as int),
        -amplitude <= r <= amplitude,
{
    proof {
        lemma_sine_bounds(a as int, amplitude as int);
    }
    let h = normalize(a);
    if h < HALF_TURN {
        half_sine_exec(h, amplitude)
    } else {
        -half_sine_exec(h - HALF_TURN, amplitude)
    }
}

/// `amplitude * cos(a)`, as `cosine` states it.
pub fn scaled_cosine(a: i64, amplitude: i64) -> (r: i64)
    requires
        0 <= amplitude,
    ensures
        r == cosine(a as int, amplitude as int),
        -amplitude <= r <= amplitude,
{
    proof {
        lemma_sine_bounds(a as int, amplitude as int);
        lemma_normalized_shift(a as int, QUARTER_TURN as int);
    }
    let h = normalize(a);
    proof {
        lemma_normalized_shift(h + QUARTER_TURN, 0);
    }
    let r = scaled_sine(h + QUARTER_TURN, amplitude);
    assert(normalized(h + QUARTER_TURN) == normalized(a + QUARTER_TURN));
    r
}

} // verus!
