//! Spectrogram construction: single-pole low-pass filter, decimation by
//! block averaging, and a Hann-windowed 1024-point DFT over a Q15 cosine
//! table, all in fixed-point integer arithmetic.
//!
//! Filtered samples are carried in Q12 fixed point (a sample value scaled by
//! `SAMPLE_SCALE`); the DFT reports, per frame, the magnitude of each of the
//! 1024 frequency bins.

use vstd::prelude::*;
use vstd::arithmetic::div_mod::{
    lemma_div_by_multiple, lemma_div_is_ordered, lemma_div_nonincreasing, lemma_div_pos_is_pos,
    lemma_fundamental_div_mod_converse_div,
};
use vstd::arithmetic::mul::{
    lemma_mul_inequality, lemma_mul_is_distributive_add_other_way, lemma_mul_is_distributive_sub_other_way,
};
use crate::declarations::SPECTROGRAM_GENERATION_FAILURE;
use crate::math::{
    div_trunc, hann_q15, isqrt64, lemma_mul_bound_signed, lemma_square_nonneg, lemma_tdiv_bound,
    sqrt_floor, tdiv, cos_cycle_q15, build_cos_table, build_hann_window, lemma_cos_cycle_bounds,
};

verus! {

/// `2 * pi * MAX_FREQUENCY`, rounded: the numerator of the filter coefficient
/// `alpha = LOWPASS_NUM / (LOWPASS_NUM + sample_rate)`.
pub const LOWPASS_NUM: i64 = 31416;

/// Scale of the Q12 fixed-point samples used between the filter and the DFT.
pub const SAMPLE_SCALE: i64 = 4096;

/// Magnitude bound of a Q12 sample: `32768 * SAMPLE_SCALE`.
pub const Q12_BOUND: i64 = 134217728;

/// The low-pass output at index `n`:
/// `y[0] = alpha * x[0]`, `y[n] = alpha * x[n] + (1 - alpha) * y[n-1]`,
/// evaluated exactly over the common denominator `LOWPASS_NUM + sr` and
/// truncated toward zero, in Q12 fixed point.
pub open spec fn lowpass_at(s: Seq<i16>, sr: int, n: int) -> int
    decreases n,
{
    if n <= 0 {
        tdiv(31416 * (s[0] * 4096), 31416 + sr)
    } else {
        tdiv(31416 * (s[n] * 4096) + sr * lowpass_at(s, sr, n - 1), 31416 + sr)
    }
}

/// The low-pass filter output, one Q12 value per input sample.
pub open spec fn lowpass_spec(s: Seq<i16>, sr: int) -> Seq<int> {
    Seq::new(s.len(), |i: int| lowpass_at(s, sr, i))
}

/// The filter never leaves the Q12 range of its input.
pub proof fn lemma_lowpass_at_bound(s: Seq<i16>, sr: int, n: int)
    requires
        sr >= 1,
        0 <= n < s.len(),
    ensures
        -134217728 <= lowpass_at(s, sr, n) <= 134217728,
    decreases n,
{
    lemma_mul_bound_signed(s[n] as int, 32768, 4096, 4096);
    if n <= 0 {
        lemma_tdiv_bound(31416 * (s[0] * 4096), 31416 + sr, 134217728);
    } else {
        lemma_lowpass_at_bound(s, sr, n - 1);
        lemma_mul_bound_signed(sr, sr, lowpass_at(s, sr, n - 1), 134217728);
        lemma_mul_is_distributive_add_other_way(134217728, 31416, sr);
        lemma_tdiv_bound(31416 * (s[n] * 4096) + sr * lowpass_at(s, sr, n - 1), 31416 + sr, 134217728);
    }
}

/// Applies the single-pole low-pass filter; the result is the filtered
/// stream in Q12 fixed point.
pub fn lowpass_filter(input: &Vec<i16>, sample_rate: u32) -> (out: Vec<i64>)
    requires
        sample_rate >= 1,
    ensures
        out@.len() == input@.len(),
        forall|j: int| 0 <= j < input@.len() ==> out@[j] == lowpass_spec(input@, sample_rate as int)[j],
        forall|j: int| 0 <= j < input@.len() ==> -134217728 <= #[trigger] out@[j] <= 134217728,
{
    let sr: i64 = sample_rate as i64;
    let den: i64 = 31416 + sr;
    let mut out: Vec<i64> = Vec::new();
    let mut prev: i64 = 0;
    let mut n: usize = 0;
    while n < input.len()
        invariant
            1 <= sr <= 4294967295,
            sr == sample_rate as int,
            den == 31416 + sr,
            n <= input@.len(),
            out@.len() == n as int,
            forall|j: int| 0 <= j < n as int ==> out@[j] == lowpass_at(input@, sr as int, j),
            forall|j: int| 0 <= j < n as int ==> -134217728 <= #[trigger] out@[j] <= 134217728,
            n > 0 ==> prev == lowpass_at(input@, sr as int, n as int - 1),
            n == 0 ==> prev == 0,
            -134217728 <= prev <= 134217728,
        decreases input@.len() - n as int,
    {
        let x: i64 = input[n] as i64;
        proof {
            lemma_mul_bound_signed(x as int, 32768, 4096, 4096);
            lemma_mul_bound_signed(sr as int, 4294967295, prev as int, 134217728);
        }
        let num: i64 = 31416 * (x * 4096) + sr * prev;
        let y: i64 = div_trunc(num, den);
        proof {
            lemma_mul_bound_signed(sr as int, sr as int, prev as int, 134217728);
            lemma_mul_is_distributive_add_other_way(134217728, 31416, sr as int);
            lemma_tdiv_bound(num as int, den as int, 134217728);
            if n == 0 {
                vstd::arithmetic::mul::lemma_mul_by_zero_is_zero(sr as int);
                assert(y == lowpass_at(input@, sr as int, 0));
            } else {
                assert(y == lowpass_at(input@, sr as int, n as int));
            }
        }
        out.push(y);
        prev = y;
        n = n + 1;
    }
    out
}

/// Unity gain at DC: fed a constant non-negative level, the filter output
/// never exceeds that level (in Q12) and climbs monotonically toward it, so
/// it converges to the input level up to the truncation granularity.
pub proof fn lemma_lowpass_dc(s: Seq<i16>, sr: int, n: int)
    requires
        sr >= 1,
        0 <= n < s.len(),
        forall|i: int| 0 <= i < s.len() ==> #[trigger] s[i] == s[0],
        s[0] >= 0,
    ensures
        0 <= lowpass_at(s, sr, n) <= s[0] * 4096,
        n > 0 ==> lowpass_at(s, sr, n - 1) <= lowpass_at(s, sr, n),
    decreases n,
{
    let den = 31416 + sr;
    let x = s[0] * 4096;
    vstd::arithmetic::mul::lemma_mul_nonnegative(s[0] as int, 4096);
    if n <= 0 {
        lemma_div_pos_is_pos(31416 * x, den);
        vstd::arithmetic::mul::lemma_mul_nonnegative(31416, x);
        lemma_mul_inequality(31416, den, x);
        lemma_div_is_ordered(31416 * x, den * x, den);
        lemma_div_by_multiple(x, den);
        vstd::arithmetic::mul::lemma_mul_is_commutative(den, x);
    } else {
        lemma_lowpass_dc(s, sr, n - 1);
        let y = lowpass_at(s, sr, n - 1);
        let num = 31416 * x + sr * y;
        vstd::arithmetic::mul::lemma_mul_nonnegative(31416, x);
        vstd::arithmetic::mul::lemma_mul_nonnegative(sr, y);
        lemma_div_pos_is_pos(num, den);
        // Never overshoots: num <= den * x.
        vstd::arithmetic::mul::lemma_mul_left_inequality(sr, y, x);
        lemma_mul_is_distributive_add_other_way(x, 31416, sr);
        vstd::arithmetic::mul::lemma_mul_is_commutative(den, x);
        lemma_div_is_ordered(num, den * x, den);
        lemma_div_by_multiple(x, den);
        // Monotone: num >= den * y.
        vstd::arithmetic::mul::lemma_mul_left_inequality(31416, y, x);
        vstd::arithmetic::mul::lemma_mul_is_commutative(31416, y);
        vstd::arithmetic::mul::lemma_mul_is_commutative(31416, x);
        lemma_mul_is_distributive_add_other_way(y, 31416, sr);
        vstd::arithmetic::mul::lemma_mul_is_commutative(den, y);
        lemma_div_is_ordered(den * y, num, den);
        lemma_div_by_multiple(y, den);
    }
}

/// The mathematical values of a sequence of machine integers.
pub open spec fn to_ints(s: Seq<i64>) -> Seq<int> {
    Seq::new(s.len(), |i: int| s[i] as int)
}

/// Sum of a sequence of integers.
pub open spec fn seq_sum(s: Seq<int>) -> int
    decreases s.len(),
{
    if s.len() == 0 {
        0
    } else {
        seq_sum(s.drop_last()) + s.last()
    }
}

/// A sum of `len` values each bounded by `b` in magnitude is bounded by
/// `len * b`.
pub proof fn lemma_seq_sum_bound(s: Seq<int>, b: int)
    requires
        0 <= b,
        forall|i: int| 0 <= i < s.len() ==> -b <= #[trigger] s[i] <= b,
    ensures
        -(s.len() * b) <= seq_sum(s) <= s.len() * b,
    decreases s.len(),
{
    if s.len() == 0 {
    } else {
        lemma_seq_sum_bound(s.drop_last(), b);
        lemma_mul_is_distributive_sub_other_way(b, s.len() as int, 1);
        assert((s.len() - 1) * b == s.len() * b - 1 * b);
    }
}

/// Length of the `i`-th decimation block: `ratio`, except for a truncated
/// final block.
pub open spec fn block_len(len: int, ratio: int, i: int) -> int {
    if (i + 1) * ratio <= len {
        ratio
    } else {
        len - i * ratio
    }
}

/// The `i`-th decimated sample: the truncated mean of the `i`-th block.
pub open spec fn downsample_block(s: Seq<int>, ratio: int, i: int) -> int {
    let bl = block_len(s.len() as int, ratio, i);
    tdiv(seq_sum(s.subrange(i * ratio, i * ratio + bl)), bl)
}

/// Decimation by block averaging: `ceil(len / ratio)` output samples.
pub open spec fn downsample_spec(s: Seq<int>, ratio: int) -> Seq<int> {
    Seq::new((((s.len() + ratio - 1) / ratio) as nat), |i: int| downsample_block(s, ratio, i))
}

/// Decimation yields no more samples than it consumes:
/// `0 <= ceil(len / ratio) <= len`.
pub proof fn lemma_ceil_div_le(len: int, r: int)
    requires
        len >= 0,
        r >= 1,
    ensures
        0 <= (len + r - 1) / r <= len,
{
    if len == 0 {
        vstd::arithmetic::div_mod::lemma_basic_div(r - 1, r);
    } else {
        assert((len - 1) * (r - 1) >= 0) by {
            vstd::arithmetic::mul::lemma_mul_nonnegative(len - 1, r - 1);
        }
        assert((len - 1) * (r - 1) == len * r - len - r + 1) by {
            vstd::arithmetic::mul::lemma_mul_is_distributive_sub(len - 1, r, 1);
            lemma_mul_is_distributive_sub_other_way(r, len, 1);
        }
        lemma_div_is_ordered(len + r - 1, len * r, r);
        lemma_div_by_multiple(len, r);
        lemma_div_pos_is_pos(len + r - 1, r);
    }
}

/// Decimates the Q12 stream to one sample per `ratio` input samples, each
/// output the arithmetic mean of its block.  Fails exactly when the target
/// rate is zero or larger than the source rate.
pub fn downsample(input: &Vec<i64>, sample_rate: u32, target_sample_rate: u32) -> (r: Result<
    Vec<i64>,
    u8,
>)
    requires
        forall|i: int| 0 <= i < input@.len() ==> -134217728 <= #[trigger] input@[i] <= 134217728,
    ensures
        r is Ok <==> (1 <= target_sample_rate <= sample_rate),
        r is Err ==> r->Err_0 == SPECTROGRAM_GENERATION_FAILURE,
        r is Ok ==> to_ints(r->Ok_0@) == downsample_spec(
            to_ints(input@),
            (sample_rate / target_sample_rate) as int,
        ),
        r is Ok ==> r->Ok_0@.len() == (input@.len() + (sample_rate / target_sample_rate) as int
            - 1) / (sample_rate / target_sample_rate) as int,
        r is Ok ==> forall|i: int|
            0 <= i < r->Ok_0@.len() ==> -134217728 <= #[trigger] r->Ok_0@[i] <= 134217728,
{
    if target_sample_rate > sample_rate {
        return Err(SPECTROGRAM_GENERATION_FAILURE);
    }
    if target_sample_rate == 0 {
        return Err(SPECTROGRAM_GENERATION_FAILURE);
    }
    let ratio_u32: u32 = sample_rate / target_sample_rate;
    proof {
        lemma_div_pos_is_pos(sample_rate as int, target_sample_rate as int);
        lemma_div_is_ordered(target_sample_rate as int, sample_rate as int, target_sample_rate as int);
        vstd::arithmetic::div_mod::lemma_div_by_self(target_sample_rate as int);
    }
    let ratio: usize = ratio_u32 as usize;
    let len: usize = input.len();
    let mut out: Vec<i64> = Vec::new();
    let mut pos: usize = 0;
    let mut i: usize = 0;
    let ghost r = ratio as int;
    while pos < len
        invariant
            1 <= r <= 4294967295,
            r == ratio as int,
            len == input@.len(),
            forall|k: int| 0 <= k < input@.len() ==> -134217728 <= #[trigger] input@[k] <= 134217728,
            out@.len() == i as int,
            i as int <= len as int,
            i as int * r <= len as int ==> pos == i as int * r,
            i as int * r > len as int ==> pos == len,
            i > 0 ==> (i as int - 1) * r < len,
            forall|k: int| 0 <= k < i as int ==> out@[k] == downsample_block(to_ints(input@), r, k),
            forall|k: int| 0 <= k < i as int ==> -134217728 <= #[trigger] out@[k] <= 134217728,
        decreases len - pos,
    {
        let end: usize = if len - pos > ratio {
            pos + ratio
        } else {
            len
        };
        let ghost bl = end as int - pos as int;
        proof {
            lemma_mul_inequality(1, r, i as int);
            assert(i as int * r <= len as int);
            assert(pos == i as int * r);
            lemma_mul_is_distributive_add_other_way(r, i as int, 1);
            assert((i as int + 1) * r == pos + r);
            assert(bl == block_len(len as int, r, i as int));
            assert(to_ints(input@).len() == len as int);
        }
        let mut sum: i64 = 0;
        let mut j: usize = pos;
        while j < end
            invariant
                pos <= j <= end <= len,
                len == input@.len(),
                forall|k: int| 0 <= k < input@.len() ==> -134217728 <= #[trigger] input@[k]
                    <= 134217728,
                sum == seq_sum(to_ints(input@).subrange(pos as int, j as int)),
                -((j as int - pos as int) * 134217728) <= sum as int <= (j as int - pos as int)
                    * 134217728,
                end as int - pos as int <= 4294967295,
            decreases end - j,
        {
            proof {
                assert(to_ints(input@).subrange(pos as int, j as int + 1).drop_last()
                    =~= to_ints(input@).subrange(pos as int, j as int));
                lemma_mul_is_distributive_add_other_way(134217728, j as int - pos as int, 1);
            }
            sum = sum + input[j];
            j = j + 1;
        }
        proof {
            lemma_tdiv_bound(sum as int, bl, 134217728);
        }
        let mean: i64 = div_trunc(sum, (end - pos) as i64);
        proof {
            assert(mean == downsample_block(to_ints(input@), r, i as int));
        }
        out.push(mean);
        proof {
            lemma_mul_inequality(1, r, i as int + 1);
            assert(i as int <= i as int * r) by {
                lemma_mul_inequality(1, r, i as int);
                vstd::arithmetic::mul::lemma_mul_is_commutative(i as int, r);
            }
            assert((i as int) < (len as int));
        }
        pos = end;
        i = i + 1;
    }
    proof {
        let leni = len as int;
        let q = (leni + r - 1) / r;
        if i == 0 {
            assert(leni == 0);
            lemma_fundamental_div_mod_converse_div(leni + r - 1, r, 0, r - 1);
        } else {
            assert(i as int * r == (i as int - 1) * r + r) by {
                lemma_mul_is_distributive_sub_other_way(r, i as int, 1);
            }
            assert((i as int - 1) * r < leni);
            assert(leni <= i as int * r);
            lemma_fundamental_div_mod_converse_div(
                leni + r - 1,
                r,
                i as int,
                leni + r - 1 - i as int * r,
            );
        }
        assert(to_ints(out@) =~= downsample_spec(to_ints(input@), r));
    }
    Ok(out)
}

/// The Hann-windowed frame of 1024 samples starting at `start`, reduced from
/// Q12 times Q15 to Q5 by one truncating division.
pub open spec fn windowed_q5(down: Seq<int>, start: int) -> Seq<int> {
    Seq::new(1024, |n: int| tdiv(hann_q15(n) * down[start + n], 4194304))
}

/// Partial sum of the cosine channel of DFT bin `k`:
/// the first `m` terms of `sum xw[n] * cos(2 pi k n / 1024)` in Q15.
pub open spec fn dft_cos_sum(xw: Seq<int>, k: int, m: int) -> int
    decreases m,
{
    if m <= 0 {
        0
    } else {
        dft_cos_sum(xw, k, m - 1) + xw[m - 1] * cos_cycle_q15((k * (m - 1)) % 1024)
    }
}

/// Partial sum of the sine channel of DFT bin `k`; the sine is the cosine
/// table read three quarter-cycles ahead.
pub open spec fn dft_sin_sum(xw: Seq<int>, k: int, m: int) -> int
    decreases m,
{
    if m <= 0 {
        0
    } else {
        dft_sin_sum(xw, k, m - 1) + xw[m - 1] * cos_cycle_q15((k * (m - 1) + 768) % 1024)
    }
}

/// The magnitude of DFT bin `k` of a windowed frame.
pub open spec fn dft_mag(xw: Seq<int>, k: int) -> int {
    let re = tdiv(dft_cos_sum(xw, k, 1024), 32768);
    let im = tdiv(dft_sin_sum(xw, k, 1024), 32768);
    sqrt_floor(re * re + im * im)
}

/// The 1024 bin magnitudes of the frame starting at `start`.
pub open spec fn frame_spec(down: Seq<int>, start: int) -> Seq<int> {
    Seq::new(1024, |k: int| dft_mag(windowed_q5(down, start), k))
}

/// How many frames a decimated stream of `len` samples yields: window starts
/// step by `SCROLL_SIZE` and a start `s` is admitted only while
/// `s + WINDOW_SIZE < len` (strictly).
pub open spec fn num_frames(len: int) -> int {
    if len > 1024 {
        (len - 1025) / 512 + 1
    } else {
        0
    }
}

/// All frames of a decimated stream.
pub open spec fn frames_spec(down: Seq<int>) -> Seq<Seq<int>> {
    Seq::new(num_frames(down.len() as int) as nat, |i: int| frame_spec(down, 512 * i))
}

/// The decimation block size for a source rate: `sr / (sr / DSP_RATIO)`.
pub open spec fn decim_ratio(sr: int) -> int {
    sr / (sr / 4)
}

/// For any workable sample rate the decimation ratio is a positive block
/// size no larger than the rate itself.
pub proof fn lemma_decim_ratio_bounds(sr: int)
    requires
        sr >= 4,
    ensures
        1 <= decim_ratio(sr) <= sr,
{
    lemma_div_is_ordered(4, sr, 4);
    vstd::arithmetic::div_mod::lemma_div_by_self(4);
    lemma_div_nonincreasing(sr, 4);
    lemma_div_is_ordered(sr / 4, sr, sr / 4);
    vstd::arithmetic::div_mod::lemma_div_by_self(sr / 4);
    lemma_div_nonincreasing(sr, sr / 4);
}

/// The whole spectrogram of a sample stream: low-pass, decimate, window, DFT.
pub open spec fn spectrogram_spec(s: Seq<i16>, sr: int) -> Seq<Seq<int>> {
    frames_spec(downsample_spec(lowpass_spec(s, sr), decim_ratio(sr)))
}

/// Applies the Hann window to the 1024 samples at `start` and rescales to Q5.
fn windowed_frame(down: &Vec<i64>, start: usize, hann: &Vec<i64>) -> (xw: Vec<i64>)
    requires
        start + 1024 <= down@.len(),
        forall|i: int| 0 <= i < down@.len() ==> -134217728 <= #[trigger] down@[i] <= 134217728,
        hann@.len() == 1024,
        forall|n: int| 0 <= n < 1024 ==> hann@[n] == hann_q15(n),
        forall|n: int| 0 <= n < 1024 ==> 0 <= #[trigger] hann@[n] <= 32768,
    ensures
        xw@.len() == 1024,
        forall|n: int| 0 <= n < 1024 ==> xw@[n] == windowed_q5(to_ints(down@), start as int)[n],
        forall|n: int| 0 <= n < 1024 ==> -1048576 <= #[trigger] xw@[n] <= 1048576,
{
    let mut xw: Vec<i64> = Vec::new();
    // Reading the length pins the stream's size into the usize range.
    let _len: usize = down.len();
    proof {
        assert(down@.len() <= usize::MAX);
    }
    let mut n: usize = 0;
    while n < 1024
        invariant
            n <= 1024,
            start + 1024 <= down@.len(),
            down@.len() <= usize::MAX,
            forall|i: int| 0 <= i < down@.len() ==> -134217728 <= #[trigger] down@[i] <= 134217728,
            hann@.len() == 1024,
            forall|j: int| 0 <= j < 1024 ==> hann@[j] == hann_q15(j),
            forall|j: int| 0 <= j < 1024 ==> 0 <= #[trigger] hann@[j] <= 32768,
            xw@.len() == n as int,
            forall|j: int| 0 <= j < n as int ==> xw@[j] == windowed_q5(
                to_ints(down@),
                start as int,
            )[j],
            forall|j: int| 0 <= j < n as int ==> -1048576 <= #[trigger] xw@[j] <= 1048576,
        decreases 1024 - n,
    {
        let h: i64 = hann[n];
        let d: i64 = down[start + n];
        proof {
            lemma_mul_bound_signed(h as int, 32768, d as int, 134217728);
        }
        let v: i64 = div_trunc(h * d, 4194304);
        proof {
            lemma_tdiv_bound(h as int * d as int, 4194304, 1048576);
        }
        xw.push(v);
        n = n + 1;
    }
    xw
}

/// Computes the 1024 DFT bin magnitudes of one windowed frame, using the
/// shared Q15 cosine table.
fn dft_frame(xw: &Vec<i64>, cost: &Vec<i64>) -> (mags: Vec<u64>)
    requires
        xw@.len() == 1024,
        forall|n: int| 0 <= n < 1024 ==> -1048576 <= #[trigger] xw@[n] <= 1048576,
        cost@.len() == 1024,
        forall|i: int| 0 <= i < 1024 ==> cost@[i] == cos_cycle_q15(i),
    ensures
        mags@.len() == 1024,
        forall|k: int| 0 <= k < 1024 ==> mags@[k] == dft_mag(to_ints(xw@), k),
{
    let mut mags: Vec<u64> = Vec::new();
    let mut k: usize = 0;
    while k < 1024
        invariant
            k <= 1024,
            xw@.len() == 1024,
            forall|n: int| 0 <= n < 1024 ==> -1048576 <= #[trigger] xw@[n] <= 1048576,
            cost@.len() == 1024,
            forall|i: int| 0 <= i < 1024 ==> cost@[i] == cos_cycle_q15(i),
            mags@.len() == k as int,
            forall|j: int| 0 <= j < k as int ==> mags@[j] == dft_mag(to_ints(xw@), j),
        decreases 1024 - k,
    {
        let mut ca: i64 = 0;
        let mut sa: i64 = 0;
        let mut n: usize = 0;
        while n < 1024
            invariant
                n <= 1024,
                k < 1024,
                xw@.len() == 1024,
                forall|j: int| 0 <= j < 1024 ==> -1048576 <= #[trigger] xw@[j] <= 1048576,
                cost@.len() == 1024,
                forall|i: int| 0 <= i < 1024 ==> cost@[i] == cos_cycle_q15(i),
                ca == dft_cos_sum(to_ints(xw@), k as int, n as int),
                sa == dft_sin_sum(to_ints(xw@), k as int, n as int),
                -(n as int * 34359738368) <= ca as int <= n as int * 34359738368,
                -(n as int * 34359738368) <= sa as int <= n as int * 34359738368,
            decreases 1024 - n,
        {
            proof {
                vstd::arithmetic::mul::lemma_mul_upper_bound(k as int, 1023, n as int, 1023);
            }
            let ci: usize = (k * n) % 1024;
            let si: usize = (k * n + 768) % 1024;
            let x: i64 = xw[n];
            let cc: i64 = cost[ci];
            let sc: i64 = cost[si];
            proof {
                lemma_cos_cycle_bounds(ci as int);
                lemma_cos_cycle_bounds(si as int);
                lemma_mul_bound_signed(x as int, 1048576, cc as int, 32768);
                lemma_mul_bound_signed(x as int, 1048576, sc as int, 32768);
            }
            ca = ca + x * cc;
            sa = sa + x * sc;
            n = n + 1;
        }
        proof {
            lemma_tdiv_bound(ca as int, 32768, 1073741824);
            lemma_tdiv_bound(sa as int, 32768, 1073741824);
        }
        let re: i64 = div_trunc(ca, 32768);
        let im: i64 = div_trunc(sa, 32768);
        proof {
            lemma_mul_bound_signed(re as int, 1073741824, re as int, 1073741824);
            lemma_mul_bound_signed(im as int, 1073741824, im as int, 1073741824);
            lemma_square_nonneg(re as int);
            lemma_square_nonneg(im as int);
        }
        let sumsq: i64 = re * re + im * im;
        let mag: u64 = isqrt64(sumsq as u64);
        proof {
            assert(mag == dft_mag(to_ints(xw@), k as int));
        }
        mags.push(mag);
        k = k + 1;
    }
    mags
}

/// Builds the spectrogram of a digitized sample stream: one magnitude frame
/// per window position.  An empty stream yields an empty spectrogram; a
/// sample rate too low to decimate (below `DSP_RATIO`) fails.
pub fn gen_spectrogram(sample: &Vec<i16>, sample_rate: u32) -> (r: Result<Vec<Vec<u64>>, u8>)
    ensures
        r is Ok <==> (sample@.len() == 0 || sample_rate >= 4),
        r is Err ==> r->Err_0 == SPECTROGRAM_GENERATION_FAILURE,
        sample@.len() == 0 ==> r is Ok && r->Ok_0@.len() == 0,
        r is Ok && sample_rate >= 4 ==> ({
            let sp = spectrogram_spec(sample@, sample_rate as int);
            &&& r->Ok_0@.len() == sp.len()
            &&& forall|i: int| 0 <= i < sp.len() ==> #[trigger] r->Ok_0@[i]@.len() == 1024
            &&& forall|i: int, k: int|
                0 <= i < sp.len() && 0 <= k < 1024 ==> #[trigger] r->Ok_0@[i]@[k] == sp[i][k]
        }),
{
    let mut spect: Vec<Vec<u64>> = Vec::new();
    if sample.len() == 0 {
        proof {
            if sample_rate >= 4 {
                let sr = sample_rate as int;
                let rr = decim_ratio(sr);
                lemma_div_pos_is_pos(sr, 4);
                lemma_div_pos_is_pos(sr, sr / 4);
                lemma_div_is_ordered(4, sr, 4);
                vstd::arithmetic::div_mod::lemma_div_by_self(4);
                lemma_div_is_ordered(sr / 4, sr, sr / 4);
                vstd::arithmetic::div_mod::lemma_div_by_self(sr / 4);
                assert(rr >= 1);
                lemma_fundamental_div_mod_converse_div(rr - 1, rr, 0, rr - 1);
                assert(spectrogram_spec(sample@, sr).len() == 0);
            }
        }
        return Ok(spect);
    }
    let target: u32 = sample_rate / 4;
    if target == 0 {
        return Err(SPECTROGRAM_GENERATION_FAILURE);
    }
    proof {
        lemma_div_is_ordered(4, sample_rate as int, 4);
        vstd::arithmetic::div_mod::lemma_div_by_self(4);
        assert(sample_rate >= 4) by {
            if sample_rate < 4 {
                vstd::arithmetic::div_mod::lemma_basic_div(sample_rate as int, 4);
            }
        }
        lemma_div_nonincreasing(sample_rate as int, 4);
    }
    let filtered: Vec<i64> = lowpass_filter(sample, sample_rate);
    proof {
        assert(to_ints(filtered@) =~= lowpass_spec(sample@, sample_rate as int));
    }
    let down: Vec<i64> = match downsample(&filtered, sample_rate, target) {
        Ok(d) => d,
        Err(code) => {
            return Err(code);
        },
    };
    let ghost dints = to_ints(down@);
    let ghost rr = decim_ratio(sample_rate as int);
    proof {
        assert(dints == downsample_spec(lowpass_spec(sample@, sample_rate as int), rr));
    }
    let hann: Vec<i64> = build_hann_window();
    let cost: Vec<i64> = build_cos_table();
    let len: usize = down.len();
    let mut start: usize = 0;
    while len - start > 1024
        invariant
            start <= len,
            len == down@.len(),
            dints == to_ints(down@),
            forall|i: int| 0 <= i < down@.len() ==> -134217728 <= #[trigger] down@[i] <= 134217728,
            hann@.len() == 1024,
            forall|n: int| 0 <= n < 1024 ==> hann@[n] == hann_q15(n),
            forall|n: int| 0 <= n < 1024 ==> 0 <= #[trigger] hann@[n] <= 32768,
            cost@.len() == 1024,
            forall|i: int| 0 <= i < 1024 ==> cost@[i] == cos_cycle_q15(i),
            start == 512 * spect@.len(),
            spect@.len() > 0 ==> 512 * (spect@.len() - 1) + 1024 < len,
            forall|i: int| 0 <= i < spect@.len() ==> #[trigger] spect@[i]@.len() == 1024,
            forall|i: int, q: int|
                0 <= i < spect@.len() && 0 <= q < 1024 ==> #[trigger] spect@[i]@[q] == frame_spec(
                    dints,
                    512 * i,
                )[q],
        decreases len - start,
    {
        let xw: Vec<i64> = windowed_frame(&down, start, &hann);
        proof {
            assert(to_ints(xw@) =~= windowed_q5(dints, start as int));
        }
        let mags: Vec<u64> = dft_frame(&xw, &cost);
        spect.push(mags);
        start = start + 512;
    }
    proof {
        let f = spect@.len() as int;
        let leni = len as int;
        assert(512 * f + 1024 >= leni);
        if leni > 1024 {
            assert(f > 0) by {
                if f == 0 {
                    assert(512 * 0 + 1024 >= leni);
                }
            }
            lemma_fundamental_div_mod_converse_div(
                leni - 1025,
                512,
                f - 1,
                leni - 1025 - 512 * (f - 1),
            );
            assert(f == num_frames(leni));
        } else {
            assert(f == 0);
        }
        assert(spect@.len() == spectrogram_spec(sample@, sample_rate as int).len());
    }
    Ok(spect)
}

/// A salient time–frequency point of the spectrogram.  The frequency is in
/// whole Hz (rounded down) and the time in whole milliseconds since the start
/// of the recording.
#[derive(Clone, Copy, PartialEq, Eq, Structural, Debug)]
pub struct Peak {
    pub frequency: u64,
    pub time_ms: u64,
}

/// Lower bin index (inclusive) of perceptual band `b` of six.
pub open spec fn band_lo(b: int) -> int {
    if b == 0 {
        0
    } else if b == 1 {
        10
    } else if b == 2 {
        20
    } else if b == 3 {
        40
    } else if b == 4 {
        80
    } else {
        160
    }
}

/// Upper bin index (exclusive) of perceptual band `b` of six.
pub open spec fn band_hi(b: int) -> int {
    if b == 0 {
        10
    } else if b == 1 {
        20
    } else if b == 2 {
        40
    } else if b == 3 {
        80
    } else if b == 4 {
        160
    } else {
        512
    }
}

/// Index of the largest magnitude in `[lo, hi)`; ties keep the earliest bin.
pub open spec fn argmax_from(frame: Seq<u64>, lo: int, hi: int) -> int
    decreases hi - lo,
{
    if hi <= lo + 1 {
        lo
    } else {
        let a = argmax_from(frame, lo, hi - 1);
        if frame[hi - 1] > frame[a] {
            hi - 1
        } else {
            a
        }
    }
}

/// The argmax lies inside its band.
pub proof fn lemma_argmax_in_range(frame: Seq<u64>, lo: int, hi: int)
    requires
        lo < hi,
    ensures
        lo <= argmax_from(frame, lo, hi) < hi,
    decreases hi - lo,
{
    if hi > lo + 1 {
        lemma_argmax_in_range(frame, lo, hi - 1);
    }
}

/// The bin with the largest magnitude in band `b`.
pub open spec fn band_argmax(frame: Seq<u64>, b: int) -> int {
    argmax_from(frame, band_lo(b), band_hi(b))
}

/// The largest magnitude in band `b`.
pub open spec fn band_max(frame: Seq<u64>, b: int) -> int {
    frame[band_argmax(frame, b)] as int
}

/// The sum of the six band maxima of a frame.
pub open spec fn bands_total(frame: Seq<u64>) -> int {
    band_max(frame, 0) + band_max(frame, 1) + band_max(frame, 2) + band_max(frame, 3) + band_max(
        frame,
        4,
    ) + band_max(frame, 5)
}

/// A band yields a peak exactly when its maximum strictly exceeds the mean
/// of the six band maxima (compared without division: `6 * max > total`).
pub open spec fn band_qualifies(frame: Seq<u64>, b: int) -> bool {
    6 * band_max(frame, b) > bands_total(frame)
}

/// The time of frame `i` in whole milliseconds: `i` times the frame duration
/// `total_frames / (sr * frame_count)` seconds, rounded down.
pub open spec fn peak_time_ms(total: int, sr: int, fc: int, i: int) -> int {
    (1000 * total * i) / (sr * fc)
}

/// The frequency of bin `bin` in whole Hz: `bin` times the frequency
/// resolution `(sr / DSP_RATIO) / WINDOW_SIZE`, rounded down.
pub open spec fn peak_frequency(sr: int, bin: int) -> int {
    (sr * bin) / 4096
}

/// The peaks of one frame, from the bands in order, up to band `b`.
pub open spec fn frame_peaks_upto(frame: Seq<u64>, t: int, sr: int, b: int) -> Seq<Peak>
    decreases b,
{
    if b <= 0 {
        Seq::empty()
    } else {
        let rest = frame_peaks_upto(frame, t, sr, b - 1);
        if band_qualifies(frame, b - 1) {
            rest.push(
                Peak {
                    frequency: peak_frequency(sr, band_argmax(frame, b - 1)) as u64,
                    time_ms: t as u64,
                },
            )
        } else {
            rest
        }
    }
}

/// All peaks of one frame.
pub open spec fn frame_peaks(frame: Seq<u64>, t: int, sr: int) -> Seq<Peak> {
    frame_peaks_upto(frame, t, sr, 6)
}

/// The views of a vector of frames.
pub open spec fn frames_of(v: Seq<Vec<u64>>) -> Seq<Seq<u64>> {
    Seq::new(v.len(), |i: int| v[i]@)
}

/// The peaks of the first `i` frames, in frame order.
pub open spec fn peaks_upto(sp: Seq<Seq<u64>>, total: int, sr: int, i: int) -> Seq<Peak>
    decreases i,
{
    if i <= 0 {
        Seq::empty()
    } else {
        peaks_upto(sp, total, sr, i - 1) + frame_peaks(
            sp[i - 1],
            peak_time_ms(total, sr, sp.len() as int, i - 1),
            sr,
        )
    }
}

/// All peaks of a spectrogram.
pub open spec fn peaks_spec(sp: Seq<Seq<u64>>, total: int, sr: int) -> Seq<Peak> {
    peaks_upto(sp, total, sr, sp.len() as int)
}

/// Peak times never decrease along the sequence.
pub open spec fn peaks_sorted(ps: Seq<Peak>) -> bool {
    forall|i: int, j: int|
        0 <= i <= j < ps.len() ==> (#[trigger] ps[i]).time_ms <= (#[trigger] ps[j]).time_ms
}

/// Every peak of one frame carries that frame's time.
proof fn lemma_frame_peaks_time(frame: Seq<u64>, t: int, sr: int, b: int)
    ensures
        forall|idx: int|
            0 <= idx < frame_peaks_upto(frame, t, sr, b).len() ==> (#[trigger] frame_peaks_upto(
                frame,
                t,
                sr,
                b,
            )[idx]).time_ms == t as u64,
    decreases b,
{
    if b > 0 {
        lemma_frame_peaks_time(frame, t, sr, b - 1);
        let rest = frame_peaks_upto(frame, t, sr, b - 1);
        let cur = frame_peaks_upto(frame, t, sr, b);
        assert forall|idx: int| 0 <= idx < cur.len() implies (#[trigger] cur[idx]).time_ms == t
            as u64 by {
            if band_qualifies(frame, b - 1) {
                if idx < rest.len() {
                    assert(cur[idx] == rest[idx]);
                }
            } else {
                assert(cur == rest);
            }
        }
    }
}

/// Frame times never decrease with the frame index.
proof fn lemma_peak_time_monotone(total: int, sr: int, fc: int, a: int, b: int)
    requires
        0 <= total,
        1 <= sr,
        1 <= fc,
        0 <= a <= b,
    ensures
        0 <= peak_time_ms(total, sr, fc, a) <= peak_time_ms(total, sr, fc, b),
{
    lemma_mul_inequality(a, b, 1000 * total);
    vstd::arithmetic::mul::lemma_mul_is_commutative(a, 1000 * total);
    vstd::arithmetic::mul::lemma_mul_is_commutative(b, 1000 * total);
    lemma_mul_inequality(1, sr, fc);
    vstd::arithmetic::mul::lemma_mul_is_commutative(sr, fc);
    lemma_div_is_ordered(1000 * total * a, 1000 * total * b, sr * fc);
    lemma_div_pos_is_pos(1000 * total * a, sr * fc);
    vstd::arithmetic::mul::lemma_mul_nonnegative(1000 * total, a);
}

/// A frame time, scaled by the sample rate, stays below the duration in
/// sample-milliseconds: `sr * t(i) <= 1000 * total` for `i < fc`.
proof fn lemma_peak_time_bound(total: int, sr: int, fc: int, i: int)
    requires
        0 <= total,
        1 <= sr,
        1 <= fc,
        0 <= i < fc,
    ensures
        sr * peak_time_ms(total, sr, fc, i) <= 1000 * total,
{
    let num = 1000 * total * i;
    let den = sr * fc;
    let t = num / den;
    lemma_mul_inequality(1, sr, fc);
    vstd::arithmetic::mul::lemma_mul_is_commutative(sr, fc);
    vstd::arithmetic::mul::lemma_mul_nonnegative(1000 * total, i);
    vstd::arithmetic::div_mod::lemma_fundamental_div_mod(num, den);
    vstd::arithmetic::div_mod::lemma_mod_bound(num, den);
    lemma_div_pos_is_pos(num, den);
    // den * t <= num
    assert(den * t <= num);
    // num <= (1000 * total) * fc
    lemma_mul_inequality(i, fc, 1000 * total);
    vstd::arithmetic::mul::lemma_mul_is_commutative(i, 1000 * total);
    vstd::arithmetic::mul::lemma_mul_is_commutative(fc, 1000 * total);
    // so (sr * t) * fc <= (1000 * total) * fc, and fc > 0 cancels
    assert((sr * t) * fc == den * t) by {
        vstd::arithmetic::mul::lemma_mul_is_associative(sr, t, fc);
        vstd::arithmetic::mul::lemma_mul_is_commutative(t, fc);
        vstd::arithmetic::mul::lemma_mul_is_associative(sr, fc, t);
    }
    vstd::arithmetic::mul::lemma_mul_inequality_converse(sr * t, 1000 * total, fc);
}

/// The peaks of a spectrogram come out ordered by time, and every peak time,
/// scaled by the sample rate, is bounded by the recording's duration in
/// sample-milliseconds.
pub proof fn lemma_peaks_spec_ordered(sp: Seq<Seq<u64>>, total: int, sr: int, i: int)
    requires
        0 <= total <= 1099511627776,
        1 <= sr,
        sp.len() >= 1,
        sp.len() <= 1099511627776,
        0 <= i <= sp.len(),
    ensures
        peaks_sorted(peaks_upto(sp, total, sr, i)),
        forall|idx: int|
            0 <= idx < peaks_upto(sp, total, sr, i).len() ==> sr * ((#[trigger] peaks_upto(
                sp,
                total,
                sr,
                i,
            )[idx]).time_ms as int) <= 1000 * total,
        i > 0 ==> forall|idx: int|
            0 <= idx < peaks_upto(sp, total, sr, i).len() ==> ((#[trigger] peaks_upto(
                sp,
                total,
                sr,
                i,
            )[idx]).time_ms as int) <= peak_time_ms(total, sr, sp.len() as int, i - 1),
    decreases i,
{
    let fc = sp.len() as int;
    if i > 0 {
        lemma_peaks_spec_ordered(sp, total, sr, i - 1);
        let t = peak_time_ms(total, sr, fc, i - 1);
        lemma_peak_time_monotone(total, sr, fc, 0, i - 1);
        lemma_peak_time_bound(total, sr, fc, i - 1);
        assert(0 <= t <= 1000 * total) by {
            lemma_mul_inequality(1, sr, t);
        }
        lemma_frame_peaks_time(sp[i - 1], t, sr, 6);
        if i > 1 {
            lemma_peak_time_monotone(total, sr, fc, i - 2, i - 1);
        }
    }
}

/// The bin bounds of band `b`.
fn band_bounds(b: usize) -> (r: (usize, usize))
    requires
        b < 6,
    ensures
        r.0 == band_lo(b as int),
        r.1 == band_hi(b as int),
        r.0 < r.1 <= 512,
{
    if b == 0 {
        (0, 10)
    } else if b == 1 {
        (10, 20)
    } else if b == 2 {
        (20, 40)
    } else if b == 3 {
        (40, 80)
    } else if b == 4 {
        (80, 160)
    } else {
        (160, 512)
    }
}

/// Extracts the characteristic peaks of a spectrogram: per frame, the
/// loudest bin of each perceptual band, kept only where it strictly exceeds
/// the mean of the six band maxima.
pub fn get_peaks(spectrogram: &Vec<Vec<u64>>, total_frames: u64, sample_rate: u32) -> (peaks: Vec<
    Peak,
>)
    requires
        forall|i: int|
            0 <= i < spectrogram@.len() ==> #[trigger] spectrogram@[i]@.len() == 1024,
        spectrogram@.len() > 0 ==> sample_rate >= 1,
        total_frames <= 1099511627776,
        spectrogram@.len() <= 1099511627776,
    ensures
        peaks@ == peaks_spec(
            frames_of(spectrogram@),
            total_frames as int,
            sample_rate as int,
        ),
{
    let mut peaks: Vec<Peak> = Vec::new();
    let fc: usize = spectrogram.len();
    if fc == 0 {
        return peaks;
    }
    let ghost sp = frames_of(spectrogram@);
    let ghost total = total_frames as int;
    let ghost sri = sample_rate as int;
    let mut fi: usize = 0;
    while fi < fc
        invariant
            fc == spectrogram@.len(),
            sample_rate >= 1,
            total == total_frames as int,
            sri == sample_rate as int,
            sp == frames_of(spectrogram@),
            total_frames <= 1099511627776,
            fc <= 1099511627776,
            fi <= fc,
            forall|i: int|
                0 <= i < spectrogram@.len() ==> #[trigger] spectrogram@[i]@.len() == 1024,
            peaks@ == peaks_upto(sp, total, sri, fi as int),
        decreases fc - fi,
    {
        let frame: &Vec<u64> = &spectrogram[fi];
        // Per-band argmax and maximum.
        let mut argidx: Vec<usize> = Vec::new();
        let mut maxima: Vec<u64> = Vec::new();
        let mut b: usize = 0;
        while b < 6
            invariant
                b <= 6,
                frame@.len() == 1024,
                frame@ == sp[fi as int],
                fi < fc,
                fc == spectrogram@.len(),
                sp == frames_of(spectrogram@),
                argidx@.len() == b as int,
                maxima@.len() == b as int,
                forall|j: int|
                    0 <= j < b as int ==> #[trigger] argidx@[j] == band_argmax(frame@, j)
                        && argidx@[j] < 512,
                forall|j: int| 0 <= j < b as int ==> #[trigger] maxima@[j] == band_max(frame@, j),
            decreases 6 - b,
        {
            let (lo, hi) = band_bounds(b);
            let mut best: usize = lo;
            let mut idx: usize = lo + 1;
            while idx < hi
                invariant
                    frame@.len() == 1024,
                    lo < hi <= 512,
                    lo <= best < idx <= hi,
                    best == argmax_from(frame@, lo as int, idx as int),
                decreases hi - idx,
            {
                if frame[idx] > frame[best] {
                    best = idx;
                }
                idx = idx + 1;
            }
            proof {
                lemma_argmax_in_range(frame@, lo as int, hi as int);
                assert(best == band_argmax(frame@, b as int));
            }
            argidx.push(best);
            maxima.push(frame[best]);
            b = b + 1;
        }
        // Mean threshold over the six maxima, compared without division.
        let total6: u128 = maxima[0] as u128 + maxima[1] as u128 + maxima[2] as u128 + maxima[3]
            as u128 + maxima[4] as u128 + maxima[5] as u128;
        proof {
            assert(total6 as int == bands_total(frame@));
        }
        // The time of this frame in milliseconds.
        proof {
            vstd::arithmetic::mul::lemma_mul_upper_bound(
                1000 * total_frames as int,
                1099511627776000,
                fi as int,
                1099511627776,
            );
            vstd::arithmetic::mul::lemma_mul_upper_bound(
                sri,
                4294967295,
                fc as int,
                1099511627776,
            );
            lemma_mul_inequality(1, sri, fc as int);
            vstd::arithmetic::mul::lemma_mul_is_commutative(sri, fc as int);
        }
        let num: u128 = 1000u128 * (total_frames as u128) * (fi as u128);
        let den: u128 = (sample_rate as u128) * (fc as u128);
        let tq: u128 = num / den;
        proof {
            vstd::arithmetic::div_mod::lemma_div_is_ordered_by_denominator(
                num as int,
                fc as int,
                den as int,
            );
            lemma_mul_inequality(fi as int, fc as int, 1000 * total);
            vstd::arithmetic::mul::lemma_mul_is_commutative(fi as int, 1000 * total);
            vstd::arithmetic::mul::lemma_mul_is_commutative(fc as int, 1000 * total);
            lemma_div_is_ordered(num as int, (1000 * total) * fc as int, fc as int);
            lemma_div_by_multiple(1000 * total, fc as int);
            assert(tq as int <= 1000 * total);
            assert(tq as int == peak_time_ms(total, sri, fc as int, fi as int));
        }
        let t64: u64 = tq as u64;
        // Emit a peak for every band whose maximum beats the mean.
        let ghost t = tq as int;
        let mut b: usize = 0;
        while b < 6
            invariant
                b <= 6,
                frame@.len() == 1024,
                frame@ == sp[fi as int],
                fi < fc,
                fc == spectrogram@.len(),
                sp == frames_of(spectrogram@),
                sample_rate >= 1,
                sri == sample_rate as int,
                total == total_frames as int,
                t == peak_time_ms(total, sri, fc as int, fi as int),
                0 <= t <= 1099511627776000,
                t64 == t,
                total6 as int == bands_total(frame@),
                argidx@.len() == 6,
                maxima@.len() == 6,
                forall|j: int|
                    0 <= j < 6 ==> #[trigger] argidx@[j] == band_argmax(frame@, j) && argidx@[j]
                        < 512,
                forall|j: int| 0 <= j < 6 ==> #[trigger] maxima@[j] == band_max(frame@, j),
                peaks@ == peaks_upto(sp, total, sri, fi as int) + frame_peaks_upto(
                    frame@,
                    t,
                    sri,
                    b as int,
                ),
            decreases 6 - b,
        {
            let m: u64 = maxima[b];
            if 6 * (m as u128) > total6 {
                let bin: usize = argidx[b];
                proof {
                    vstd::arithmetic::mul::lemma_mul_upper_bound(
                        sri,
                        4294967295,
                        bin as int,
                        511,
                    );
                    lemma_div_pos_is_pos(sri * bin as int, 4096);
                    lemma_div_is_ordered(sri * bin as int, 4294967295int * 511int, 4096);
                }
                let freq: u64 = ((sample_rate as u64) * (bin as u64)) / 4096;
                proof {
                    assert(freq as int == peak_frequency(sri, bin as int));
                }
                peaks.push(Peak { frequency: freq, time_ms: t64 });
            }
            b = b + 1;
        }
        proof {
            assert(peaks@ == peaks_upto(sp, total, sri, fi as int + 1));
        }
        fi = fi + 1;
    }
    peaks
}

} // verus!
