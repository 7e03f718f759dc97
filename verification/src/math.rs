//! Integer helpers for the fixed-point signal processing: truncating division,
//! an integer square root, and a Q15 cosine built from a clamped polynomial.
//!
//! Everything here is exact integer arithmetic, so every value that the DSP
//! pipeline computes is a mathematical function of its inputs.

use vstd::prelude::*;
use vstd::arithmetic::div_mod::{
    lemma_div_by_multiple, lemma_div_is_ordered, lemma_div_nonincreasing, lemma_div_pos_is_pos,
    lemma_fundamental_div_mod_converse_div,
};
use vstd::arithmetic::mul::{lemma_mul_inequality, lemma_mul_upper_bound};

verus! {

/// One in Q15 fixed point.
pub const Q15_ONE: i64 = 32768;

/// `pi / 2` in Q15 fixed point (rounded).
pub const PI_HALF_Q15: u64 = 51472;

/// `pi` in Q15 fixed point (rounded).
pub const PI_Q15: u64 = 102944;

/// `2 * pi` in Q15 fixed point (rounded).
pub const TWO_PI_Q15: u64 = 205887;

/// Division that rounds toward zero, the convention used throughout the
/// engine for signed fixed-point values.
pub open spec fn tdiv(a: int, b: int) -> int {
    if a >= 0 {
        a / b
    } else {
        -((-a) / b)
    }
}

/// A quotient rounded toward zero is no larger in magnitude than any bound on
/// the numerator divided by the denominator.
pub proof fn lemma_tdiv_bound(a: int, b: int, bound: int)
    requires
        b >= 1,
        bound >= 0,
        -(bound * b) <= a <= bound * b,
    ensures
        -bound <= tdiv(a, b) <= bound,
{
    lemma_div_by_multiple(bound, b);
    if a >= 0 {
        lemma_div_is_ordered(a, bound * b, b);
        lemma_div_pos_is_pos(a, b);
    } else {
        lemma_div_is_ordered(-a, bound * b, b);
        lemma_div_pos_is_pos(-a, b);
    }
}

/// Truncating division on machine integers; rounds toward zero like the `/`
/// operator of the original platform.
pub fn div_trunc(a: i64, b: i64) -> (q: i64)
    requires
        b >= 1,
        a > i64::MIN,
    ensures
        q == tdiv(a as int, b as int),
{
    if a >= 0 {
        let q = (a as u64) / (b as u64);
        proof {
            lemma_div_nonincreasing(a as int, b as int);
        }
        q as i64
    } else {
        let m = (-a) as u64;
        let q = m / (b as u64);
        proof {
            lemma_div_nonincreasing(m as int, b as int);
        }
        -(q as i64)
    }
}

/// A product of bounded factors is bounded by the product of the bounds,
/// whatever the signs of the factors.
pub proof fn lemma_mul_bound_signed(x: int, bx: int, y: int, by: int)
    requires
        -bx <= x <= bx,
        -by <= y <= by,
        0 <= bx,
        0 <= by,
    ensures
        -(bx * by) <= x * y <= bx * by,
{
    vstd::arithmetic::mul::lemma_mul_unary_negation(x, y);
    vstd::arithmetic::mul::lemma_mul_cancels_negatives(x, y);
    if x >= 0 && y >= 0 {
        lemma_mul_upper_bound(x, bx, y, by);
        vstd::arithmetic::mul::lemma_mul_nonnegative(x, y);
        vstd::arithmetic::mul::lemma_mul_nonnegative(bx, by);
    } else if x >= 0 && y < 0 {
        lemma_mul_upper_bound(x, bx, -y, by);
        vstd::arithmetic::mul::lemma_mul_nonnegative(x, -y);
        vstd::arithmetic::mul::lemma_mul_nonnegative(bx, by);
    } else if x < 0 && y >= 0 {
        lemma_mul_upper_bound(-x, bx, y, by);
        vstd::arithmetic::mul::lemma_mul_nonnegative(-x, y);
        vstd::arithmetic::mul::lemma_mul_nonnegative(bx, by);
    } else {
        lemma_mul_upper_bound(-x, bx, -y, by);
        vstd::arithmetic::mul::lemma_mul_nonnegative(-x, -y);
        vstd::arithmetic::mul::lemma_mul_nonnegative(bx, by);
    }
}

/// A square is never negative.
pub proof fn lemma_square_nonneg(x: int)
    ensures
        x * x >= 0,
{
    if x >= 0 {
        vstd::arithmetic::mul::lemma_mul_nonnegative(x, x);
    } else {
        vstd::arithmetic::mul::lemma_mul_nonnegative(-x, -x);
        vstd::arithmetic::mul::lemma_mul_cancels_negatives(x, x);
    }
}

/// The integer square root: the unique `r >= 0` with
/// `r * r <= v < (r + 1) * (r + 1)`.
pub open spec fn sqrt_floor(v: int) -> int {
    choose|r: int| 0 <= r && #[trigger] (r * r) <= v && v < (r + 1) * (r + 1)
}

/// Any `r` with `r * r <= v < (r + 1) * (r + 1)` is `sqrt_floor(v)`.
pub proof fn lemma_sqrt_floor_is(v: int, r: int)
    requires
        0 <= r,
        r * r <= v,
        v < (r + 1) * (r + 1),
    ensures
        sqrt_floor(v) == r,
{
    assert(0 <= r && r * r <= v && v < (r + 1) * (r + 1));
    let s = sqrt_floor(v);
    assert(0 <= s && s * s <= v && v < (s + 1) * (s + 1));
    if s < r {
        lemma_mul_inequality(s + 1, r, s + 1);
        lemma_mul_inequality(s + 1, r, r);
        assert((s + 1) * (s + 1) <= r * r);
    }
    if r < s {
        lemma_mul_inequality(r + 1, s, r + 1);
        lemma_mul_inequality(r + 1, s, s);
        assert((r + 1) * (r + 1) <= s * s);
    }
}

/// Integer square root of a 64-bit value, by bisection.
pub fn isqrt64(v: u64) -> (r: u64)
    ensures
        r * r <= v < (r + 1) * (r + 1),
        r == sqrt_floor(v as int),
{
    let mut lo: u64 = 0;
    let mut hi: u64 = 4294967296;
    proof {
        assert(lo * lo <= v as int);
        assert((v as int) < hi * hi) by {
            assert(hi * hi == 18446744073709551616int);
        }
    }
    while lo + 1 < hi
        invariant
            lo < hi <= 4294967296,
            lo * lo <= v as int,
            (v as int) < hi * hi,
        decreases hi - lo,
    {
        let mid = lo + (hi - lo) / 2;
        proof {
            assert(lo < mid < hi);
            lemma_mul_upper_bound(mid as int, 4294967296, mid as int, 4294967296);
        }
        let sq: u128 = (mid as u128) * (mid as u128);
        if sq <= v as u128 {
            lo = mid;
        } else {
            hi = mid;
        }
    }
    proof {
        assert(hi == lo + 1);
        lemma_sqrt_floor_is(v as int, lo as int);
    }
    lo
}

/// Q15 cosine on the first quadrant, from a truncated power series, saturated
/// to `[-Q15_ONE, Q15_ONE]`.  The argument is an angle in Q15 radians,
/// `0 <= x <= PI_HALF_Q15`.
pub open spec fn cos_quarter_q15(x: int) -> int {
    let x2 = (x * x) / 32768;
    let x4 = (x2 * x2) / 32768;
    let x6 = (x4 * x2) / 32768;
    let c = 32768 + x4 / 24 - x2 / 2 - x6 / 720;
    if c > 32768 {
        32768
    } else if c < -32768 {
        -32768
    } else {
        c
    }
}

/// The saturated cosine stays within one in Q15.
pub proof fn lemma_cos_quarter_bounds(x: int)
    ensures
        -32768 <= cos_quarter_q15(x) <= 32768,
{
}

/// Evaluates the quadrant cosine polynomial in integer arithmetic.
pub fn cos_quarter(x: u64) -> (c: i64)
    requires
        x <= PI_HALF_Q15,
    ensures
        c == cos_quarter_q15(x as int),
        -32768 <= c <= 32768,
{
    proof {
        lemma_mul_upper_bound(x as int, 51472, x as int, 51472);
    }
    let x2 = (x * x) / 32768;
    proof {
        lemma_div_is_ordered((x * x) as int, 51472int * 51472int, 32768);
        assert(51472int * 51472int / 32768int == 80852) by {
            lemma_fundamental_div_mod_converse_div(51472int * 51472int, 32768, 80852, 8448);
        }
        lemma_mul_upper_bound(x2 as int, 80852, x2 as int, 80852);
    }
    let x4 = (x2 * x2) / 32768;
    proof {
        lemma_div_is_ordered((x2 * x2) as int, 80852int * 80852int, 32768);
        assert(80852int * 80852int / 32768int == 199494) by {
            lemma_fundamental_div_mod_converse_div(80852int * 80852int, 32768, 199494, 26512);
        }
        lemma_mul_upper_bound(x4 as int, 199494, x2 as int, 80852);
    }
    let x6 = (x4 * x2) / 32768;
    let c: i64 = 32768i64 + (x4 / 24) as i64 - (x2 / 2) as i64 - (x6 / 720) as i64;
    if c > 32768 {
        32768
    } else if c < -32768 {
        -32768
    } else {
        c
    }
}

/// The angle `2 * pi * j / 1024` in Q15 radians, for `j` in the first
/// quadrant of the 1024-point cycle (`0 <= j <= 256`).
pub open spec fn quarter_angle_q15(j: int) -> int {
    (j * 51472) / 256
}

/// Evaluates `quarter_angle_q15` and bounds it by the quarter circle.
fn quarter_angle(j: u64) -> (x: u64)
    requires
        j <= 256,
    ensures
        x == quarter_angle_q15(j as int),
        x <= PI_HALF_Q15,
{
    proof {
        lemma_mul_inequality(j as int, 256, 51472);
        lemma_div_is_ordered(j as int * 51472, 256int * 51472int, 256);
        assert((256int * 51472int) / 256int == 51472) by {
            lemma_fundamental_div_mod_converse_div(256int * 51472int, 256, 51472, 0);
        }
        lemma_div_pos_is_pos(j as int * 51472, 256);
    }
    (j * 51472) / 256
}

/// `cos(2 * pi * i / 1024)` in Q15 fixed point, by quadrant symmetry from the
/// saturated quarter-wave polynomial; `0 <= i < 1024`.
pub open spec fn cos_cycle_q15(i: int) -> int {
    if i <= 256 {
        cos_quarter_q15(quarter_angle_q15(i))
    } else if i <= 512 {
        -cos_quarter_q15(quarter_angle_q15(512 - i))
    } else if i <= 768 {
        -cos_quarter_q15(quarter_angle_q15(i - 512))
    } else {
        cos_quarter_q15(quarter_angle_q15(1024 - i))
    }
}

/// The cycle cosine stays within one in Q15.
pub proof fn lemma_cos_cycle_bounds(i: int)
    ensures
        -32768 <= cos_cycle_q15(i) <= 32768,
{
}

/// Builds the 1024-entry Q15 cosine table used by the DFT.
pub fn build_cos_table() -> (t: Vec<i64>)
    ensures
        t@.len() == 1024,
        forall|i: int| 0 <= i < 1024 ==> t@[i] == cos_cycle_q15(i),
{
    let mut t: Vec<i64> = Vec::new();
    let mut i: usize = 0;
    while i < 1024
        invariant
            i <= 1024,
            t@.len() == i as int,
            forall|j: int| 0 <= j < i as int ==> t@[j] == cos_cycle_q15(j),
        decreases 1024 - i,
    {
        let c: i64 = if i <= 256 {
            cos_quarter(quarter_angle(i as u64))
        } else if i <= 512 {
            -cos_quarter(quarter_angle((512 - i) as u64))
        } else if i <= 768 {
            -cos_quarter(quarter_angle((i - 512) as u64))
        } else {
            cos_quarter(quarter_angle((1024 - i) as u64))
        };
        assert(c == cos_cycle_q15(i as int));
        t.push(c);
        i = i + 1;
    }
    t
}

/// Folds an index of the 1024-sample Hann window onto `[0, 511]`; the window
/// is symmetric around the fold.
pub open spec fn hann_fold(k: int) -> int {
    if k <= 511 {
        k
    } else {
        1023 - k
    }
}

/// The angle `2 * pi * hann_fold(k) / 1023` in Q15 radians.
pub open spec fn hann_angle_q15(k: int) -> int {
    (hann_fold(k) * 205887) / 1023
}

/// Q15 cosine on `[0, pi]`, by reflection of the quarter-wave polynomial.
pub open spec fn cos_halfcircle_q15(x: int) -> int {
    if x <= 51472 {
        cos_quarter_q15(x)
    } else {
        -cos_quarter_q15(102944 - x)
    }
}

/// The Hann window coefficient `0.5 - 0.5 * cos(2 * pi * k / 1023)` in Q15
/// fixed point, for `0 <= k < 1024`.
pub open spec fn hann_q15(k: int) -> int {
    (32768 - cos_halfcircle_q15(hann_angle_q15(k))) / 2
}

/// Evaluates the half-circle cosine in integer arithmetic.
fn cos_halfcircle(x: u64) -> (c: i64)
    requires
        x <= PI_Q15,
    ensures
        c == cos_halfcircle_q15(x as int),
        -32768 <= c <= 32768,
{
    if x <= 51472 {
        cos_quarter(x)
    } else {
        -cos_quarter(102944 - x)
    }
}

/// Builds the 1024-sample Q15 Hann window.
pub fn build_hann_window() -> (w: Vec<i64>)
    ensures
        w@.len() == 1024,
        forall|k: int| 0 <= k < 1024 ==> w@[k] == hann_q15(k),
        forall|k: int| 0 <= k < 1024 ==> 0 <= #[trigger] w@[k] <= 32768,
{
    let mut w: Vec<i64> = Vec::new();
    let mut k: usize = 0;
    while k < 1024
        invariant
            k <= 1024,
            w@.len() == k as int,
            forall|j: int| 0 <= j < k as int ==> w@[j] == hann_q15(j),
            forall|j: int| 0 <= j < k as int ==> 0 <= #[trigger] w@[j] <= 32768,
        decreases 1024 - k,
    {
        let m: u64 = if k <= 511 {
            k as u64
        } else {
            (1023 - k) as u64
        };
        proof {
            lemma_mul_inequality(m as int, 511, 205887);
            lemma_div_is_ordered(m as int * 205887, 511int * 205887int, 1023);
            assert((511int * 205887int) / 1023int == 102842) by {
                lemma_fundamental_div_mod_converse_div(511int * 205887int, 1023, 102842, 891);
            }
            lemma_div_pos_is_pos(m as int * 205887, 1023);
        }
        let x: u64 = (m * 205887) / 1023;
        let c: i64 = cos_halfcircle(x);
        let wk: i64 = ((32768 - c) / 2) as i64;
        proof {
            lemma_div_pos_is_pos(32768 - c as int, 2);
            lemma_div_is_ordered(32768 - c as int, 65536, 2);
            assert(65536int / 2int == 32768) by {
                lemma_fundamental_div_mod_converse_div(65536, 2, 32768, 0);
            }
            assert(wk == hann_q15(k as int));
        }
        w.push(wk);
        k = k + 1;
    }
    w
}

/// Laws of the Hann window: it is symmetric about its center, starts at zero,
/// stays within `[0, Q15_ONE]`, and attains its maximum at the middle sample.
pub proof fn lemma_hann_window_laws(k: int)
    requires
        0 <= k < 1024,
    ensures
        hann_q15(k) == hann_q15(1023 - k),
        hann_q15(0) == 0,
        0 <= hann_q15(k) <= 32768,
        hann_q15(k) <= hann_q15(512),
{
    assert(hann_fold(k) == hann_fold(1023 - k));
    // hann_q15(0): the angle is zero and the cosine is exactly one.
    assert((0int * 205887int) / 1023int == 0) by {
        lemma_fundamental_div_mod_converse_div(0, 1023, 0, 0);
    }
    assert(cos_quarter_q15(0) == 32768) by {
        assert((0int * 0int) / 32768int == 0) by {
            lemma_fundamental_div_mod_converse_div(0, 32768, 0, 0);
        }
        assert(0int / 24int == 0 && 0int / 2int == 0 && 0int / 720int == 0) by {
            lemma_fundamental_div_mod_converse_div(0, 24, 0, 0);
            lemma_fundamental_div_mod_converse_div(0, 2, 0, 0);
            lemma_fundamental_div_mod_converse_div(0, 720, 0, 0);
        }
    }
    assert((32768int - 32768int) / 2int == 0) by {
        lemma_fundamental_div_mod_converse_div(0, 2, 0, 0);
    }
    assert(hann_q15(0) == 0);
    // hann_q15(512): the folded angle is just short of pi, where the
    // saturated cosine is exactly minus one.
    assert((511int * 205887int) / 1023int == 102842) by {
        lemma_fundamental_div_mod_converse_div(511int * 205887int, 1023, 102842, 891);
    }
    assert(cos_quarter_q15(102) == 32768) by {
        assert((102int * 102int) / 32768int == 0) by {
            lemma_fundamental_div_mod_converse_div(102int * 102int, 32768, 0, 10404);
        }
        assert((0int * 0int) / 32768int == 0) by {
            lemma_fundamental_div_mod_converse_div(0, 32768, 0, 0);
        }
        assert(0int / 24int == 0 && 0int / 2int == 0 && 0int / 720int == 0) by {
            lemma_fundamental_div_mod_converse_div(0, 24, 0, 0);
            lemma_fundamental_div_mod_converse_div(0, 2, 0, 0);
            lemma_fundamental_div_mod_converse_div(0, 720, 0, 0);
        }
    }
    assert((32768int - (-32768int)) / 2int == 32768) by {
        lemma_fundamental_div_mod_converse_div(65536, 2, 32768, 0);
    }
    assert(hann_q15(512) == 32768);
    // Bounds: the saturated cosine is within one, so the window coefficient
    // lies in [0, 32768] and in particular never exceeds the middle sample.
    let c = cos_halfcircle_q15(hann_angle_q15(k));
    assert(-32768 <= c <= 32768);
    lemma_div_pos_is_pos(32768 - c, 2);
    lemma_div_is_ordered(32768 - c, 65536, 2);
    assert(65536int / 2int == 32768) by {
        lemma_fundamental_div_mod_converse_div(65536, 2, 32768, 0);
    }
}

} // verus!
