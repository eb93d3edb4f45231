//! Preconditioning of decoded PCM audio: peak normalization and
//! nearest-lower-index downsampling.
//!
//! Samples are integer PCM values.  Normalization rescales them to
//! fixed-point values with peak magnitude `NORM_SCALE`, so that a later
//! stage may interpret a sample `v` as the real amplitude `v / NORM_SCALE`.

use vstd::prelude::*;
use vstd::arithmetic::div_mod::lemma_div_is_ordered;
use vstd::arithmetic::div_mod::lemma_div_multiples_vanish;
use vstd::arithmetic::mul::lemma_mul_inequality;
use crate::errors::FingerprintError;
use crate::spectrogram::SAMPLE_RATE;
use crate::spectrogram::SOURCE_RATE;

verus! {

/// Peak amplitude of a normalized signal, in fixed-point units.
pub const NORM_SCALE: i64 = 32768;

/// Magnitude of a sample value.
pub open spec fn abs_val(v: int) -> int {
    if v < 0 {
        -v
    } else {
        v
    }
}

/// Largest sample magnitude in a signal; 0 for an empty signal.
pub open spec fn max_abs(s: Seq<i32>) -> int
    decreases s.len(),
{
    if s.len() == 0 {
        0
    } else if abs_val(s.last() as int) >= max_abs(s.drop_last()) {
        abs_val(s.last() as int)
    } else {
        max_abs(s.drop_last())
    }
}

/// A sample rescaled so that a peak magnitude `m` maps to `NORM_SCALE`,
/// rounding the magnitude down.
pub open spec fn scaled_sample(v: int, m: int) -> int {
    if v >= 0 {
        (v * NORM_SCALE) / m
    } else {
        -((-v * NORM_SCALE) / m)
    }
}

pub proof fn lemma_max_abs_ge(s: Seq<i32>, i: int)
    requires
        0 <= i < s.len(),
    ensures
        max_abs(s) >= abs_val(s[i] as int),
    decreases s.len(),
{
    if i == s.len() - 1 {
    } else {
        lemma_max_abs_ge(s.drop_last(), i);
    }
}

/// If every sample magnitude is at most `b` and some sample reaches `b`,
/// then `b` is the peak magnitude.
pub proof fn lemma_max_abs_exact(s: Seq<i32>, b: int, i: int)
    requires
        0 <= i < s.len(),
        abs_val(s[i] as int) == b,
        forall|j: int| 0 <= j < s.len() ==> abs_val(s[j] as int) <= b,
    ensures
        max_abs(s) == b,
    decreases s.len(),
{
    lemma_max_abs_ge(s, i);
    lemma_max_abs_le(s, b);
}

pub proof fn lemma_max_abs_le(s: Seq<i32>, b: int)
    requires
        forall|j: int| 0 <= j < s.len() ==> abs_val(s[j] as int) <= b,
        b >= 0,
    ensures
        max_abs(s) <= b,
    decreases s.len(),
{
    if s.len() > 0 {
        assert(forall|j: int| 0 <= j < s.drop_last().len() ==> abs_val(
            s.drop_last()[j] as int,
        ) <= b);
        lemma_max_abs_le(s.drop_last(), b);
    }
}

/// A rescaled sample is bounded by `NORM_SCALE` in magnitude, and a sample
/// at the peak magnitude rescales exactly to `NORM_SCALE`.
proof fn lemma_scaled_bounds(v: int, m: int)
    requires
        0 < m,
        abs_val(v) <= m,
    ensures
        abs_val(scaled_sample(v, m)) <= NORM_SCALE,
        abs_val(v) == m ==> abs_val(scaled_sample(v, m)) == NORM_SCALE,
{
    let a = abs_val(v);
    lemma_mul_inequality(a, m, NORM_SCALE as int);
    lemma_div_is_ordered(a * NORM_SCALE, m * NORM_SCALE, m);
    lemma_div_multiples_vanish(NORM_SCALE as int, m);
    assert(m * NORM_SCALE == NORM_SCALE * m) by (nonlinear_arith);
    assert((a * NORM_SCALE) / m >= 0) by {
        vstd::arithmetic::div_mod::lemma_div_pos_is_pos(a * NORM_SCALE, m);
        vstd::arithmetic::mul::lemma_mul_nonnegative(a, NORM_SCALE as int);
    }
}

/// Peak-normalize a signal: an empty or silent signal is returned
/// unchanged; otherwise every sample is rescaled so that the largest
/// magnitude becomes exactly `NORM_SCALE`.
pub fn normalize_audio(samples: &Vec<i32>) -> (r: Vec<i32>)
    ensures
        samples@.len() == 0 ==> r@ == samples@,
        max_abs(samples@) == 0 ==> r@ == samples@,
        max_abs(samples@) > 0 ==> {
            &&& r@.len() == samples@.len()
            &&& forall|i: int|
                0 <= i < r@.len() ==> r@[i] == scaled_sample(
                    samples@[i] as int,
                    max_abs(samples@),
                )
            &&& max_abs(r@) == NORM_SCALE
        },
{
    if samples.len() == 0 {
        let r: Vec<i32> = Vec::new();
        proof {
            assert(r@ =~= samples@);
        }
        return r;
    }
    let mut m: i64 = 0;
    let mut peak_at: usize = 0;
    let mut i: usize = 0;
    while i < samples.len()
        invariant
            0 <= i <= samples@.len(),
            m == max_abs(samples@.take(i as int)),
            m > 0 ==> peak_at < i && abs_val(samples@[peak_at as int] as int) == m,
            0 <= m <= 0x8000_0000i64,
        decreases samples@.len() - i,
    {
        let v: i32 = samples[i];
        let a: i64 = if v < 0 {
            -(v as i64)
        } else {
            v as i64
        };
        proof {
            assert(samples@.take(i + 1).drop_last() =~= samples@.take(i as int));
            assert(samples@.take(i + 1).last() == samples@[i as int]);
        }
        if a > m {
            m = a;
            peak_at = i;
        }
        i += 1;
    }
    proof {
        assert(samples@.take(samples@.len() as int) =~= samples@);
    }
    if m == 0 {
        let r = clone_samples(samples);
        return r;
    }
    let ghost mm: int = max_abs(samples@);
    let mut out: Vec<i32> = Vec::new();
    let mut j: usize = 0;
    while j < samples.len()
        invariant
            0 <= j <= samples@.len(),
            0 < m <= 0x8000_0000i64,
            m == max_abs(samples@),
            mm == m as int,
            peak_at < samples@.len(),
            abs_val(samples@[peak_at as int] as int) == m,
            out@.len() == j,
            forall|k: int|
                0 <= k < j ==> out@[k] == scaled_sample(samples@[k] as int, mm),
        decreases samples@.len() - j,
    {
        let v: i32 = samples[j];
        proof {
            lemma_max_abs_ge(samples@, j as int);
            lemma_scaled_bounds(v as int, mm);
        }
        let s: i32 = if v >= 0 {
            (((v as i64) * NORM_SCALE) / m) as i32
        } else {
            (-(((-(v as i64)) * NORM_SCALE) / m)) as i32
        };
        out.push(s);
        j += 1;
    }
    proof {
        assert forall|k: int| 0 <= k < out@.len() implies abs_val(out@[k] as int)
            <= NORM_SCALE by {
            lemma_max_abs_ge(samples@, k);
            lemma_scaled_bounds(samples@[k] as int, mm);
        }
        lemma_scaled_bounds(samples@[peak_at as int] as int, mm);
        lemma_max_abs_exact(out@, NORM_SCALE as int, peak_at as int);
    }
    out
}

/// Copy a signal unchanged.
fn clone_samples(samples: &Vec<i32>) -> (r: Vec<i32>)
    ensures
        r@ == samples@,
{
    let mut out: Vec<i32> = Vec::new();
    let mut i: usize = 0;
    while i < samples.len()
        invariant
            0 <= i <= samples@.len(),
            out@ =~= samples@.take(i as int),
        decreases samples@.len() - i,
    {
        out.push(samples[i]);
        i += 1;
    }
    proof {
        assert(out@ =~= samples@);
    }
    out
}

/// Index into the source signal that the downsampler reads for output
/// position `i`: the nearest lower source index at rate ratio
/// `original_rate / target_rate`.
pub open spec fn downsample_index(i: int, original_rate: int, target_rate: int) -> int {
    (i * original_rate) / target_rate
}

/// Length of the downsampled signal.
pub open spec fn downsample_len(n: int, original_rate: int, target_rate: int) -> int {
    (n * target_rate) / original_rate
}

proof fn lemma_downsample_index_in_range(i: int, n: int, from: int, to: int)
    requires
        0 < to < from,
        0 <= i < (n * to) / from,
        n >= 0,
    ensures
        0 <= (i * from) / to < n,
{
    let q = (n * to) / from;
    assert((i * from) >= 0) by {
        vstd::arithmetic::mul::lemma_mul_nonnegative(i, from);
    }
    vstd::arithmetic::div_mod::lemma_div_pos_is_pos(i * from, to);
    // (i+1) <= q, so (i+1)*from <= q*from <= n*to
    lemma_mul_inequality(i + 1, q, from);
    assert(q * from <= n * to) by {
        vstd::arithmetic::div_mod::lemma_fundamental_div_mod(n * to, from);
        vstd::arithmetic::div_mod::lemma_mod_bound(n * to, from);
        assert(q * from == from * q) by (nonlinear_arith);
    }
    assert((i + 1) * from == i * from + from) by (nonlinear_arith);
    assert(i * from <= n * to - from);
    lemma_div_is_ordered(i * from, n * to - from, to);
    // (n*to - from)/to <= n - 2 + (to - 1)/to < n
    assert(n * to - from <= (n - 1) * to - 1) by (nonlinear_arith)
        requires
            0 < to < from,
    ;
    lemma_div_is_ordered(n * to - from, (n - 1) * to - 1, to);
    assert(((n - 1) * to - 1) / to <= n - 1) by {
        vstd::arithmetic::div_mod::lemma_fundamental_div_mod((n - 1) * to - 1, to);
        vstd::arithmetic::div_mod::lemma_mod_bound((n - 1) * to - 1, to);
        assert(((n - 1) * to - 1) / to > n - 1 ==> ((n - 1) * to - 1) / to * to >= n * to)
            by (nonlinear_arith)
            requires
                to > 0,
        ;
        assert((n - 1) * to - 1 < n * to - to + to) by (nonlinear_arith)
            requires
                to > 0,
        ;
    }
}

/// Downsample by nearest-lower-index selection.  If the source rate does
/// not exceed the target rate the signal is returned unchanged; otherwise
/// output position `i` holds the source sample at index
/// `(i * original_rate) / target_rate` and the output length is
/// `(n * target_rate) / original_rate`.
pub fn downsample(samples: &Vec<i32>, original_rate: u32, target_rate: u32) -> (r: Vec<i32>)
    requires
        target_rate > 0,
        samples@.len() * original_rate <= u64::MAX,
    ensures
        original_rate <= target_rate ==> r@ == samples@,
        original_rate > target_rate ==> {
            &&& r@.len() == downsample_len(
                samples@.len() as int,
                original_rate as int,
                target_rate as int,
            )
            &&& forall|i: int|
                0 <= i < r@.len() ==> r@[i] == samples@[downsample_index(
                    i,
                    original_rate as int,
                    target_rate as int,
                )]
        },
        r@.len() <= samples@.len(),
{
    if original_rate <= target_rate {
        return clone_samples(samples);
    }
    let n: u64 = samples.len() as u64;
    proof {
        assert(n * target_rate <= n * original_rate) by {
            lemma_mul_inequality(target_rate as int, original_rate as int, n as int);
            assert(n * target_rate == target_rate * n) by (nonlinear_arith);
            assert(n * original_rate == original_rate * n) by (nonlinear_arith);
        }
    }
    let new_len: u64 = n * (target_rate as u64) / (original_rate as u64);
    proof {
        assert(new_len <= n) by {
            lemma_div_is_ordered(n as int * target_rate as int, n as int * original_rate as int,
                original_rate as int);
            lemma_div_multiples_vanish(n as int, original_rate as int);
            assert(n * original_rate == original_rate * n) by (nonlinear_arith);
        }
    }
    let mut out: Vec<i32> = Vec::new();
    let mut i: u64 = 0;
    while i < new_len
        invariant
            0 <= i <= new_len,
            new_len == downsample_len(n as int, original_rate as int, target_rate as int),
            n == samples@.len(),
            samples@.len() <= usize::MAX,
            new_len <= n,
            0 < target_rate < original_rate,
            n * original_rate <= u64::MAX,
            out@.len() == i,
            forall|k: int|
                0 <= k < i ==> out@[k] == samples@[downsample_index(
                    k,
                    original_rate as int,
                    target_rate as int,
                )],
        decreases new_len - i,
    {
        proof {
            lemma_downsample_index_in_range(i as int, n as int, original_rate as int,
                target_rate as int);
            assert(i * original_rate <= n * original_rate) by {
                lemma_mul_inequality(i as int, n as int, original_rate as int);
            }
        }
        let src64: u64 = i * (original_rate as u64) / (target_rate as u64);
        proof {
            assert(src64 == downsample_index(i as int, original_rate as int, target_rate as int));
            assert(src64 < n);
        }
        let src: usize = src64 as usize;
        out.push(samples[src]);
        proof {
            assert(out@[i as int] == samples@[downsample_index(i as int, original_rate as int,
                target_rate as int)]);
        }
        i += 1;
    }
    out
}

/// A signal after peak normalization, as a sequence.
pub open spec fn normalized_sig(s: Seq<i32>) -> Seq<i32> {
    if max_abs(s) == 0 {
        s
    } else {
        Seq::new(s.len(), |i: int| scaled_sample(s[i] as int, max_abs(s)) as i32)
    }
}

/// A signal after nearest-lower-index downsampling, as a sequence.
pub open spec fn downsampled_sig(s: Seq<i32>, from: int, to: int) -> Seq<i32> {
    if from <= to {
        s
    } else {
        Seq::new(
            downsample_len(s.len() as int, from, to) as nat,
            |i: int| s[downsample_index(i, from, to)],
        )
    }
}

/// Precondition a decoded signal for analysis: reject an empty signal,
/// peak-normalize, and downsample from the source rate to the analysis
/// rate.
pub fn precondition_samples(samples: &Vec<i32>) -> (r: Result<Vec<i32>, FingerprintError>)
    requires
        samples@.len() * SOURCE_RATE <= u64::MAX,
    ensures
        r is Err <==> samples@.len() == 0,
        r is Err ==> r->Err_0 == FingerprintError::EmptyInput,
        r is Ok ==> r->Ok_0@ == downsampled_sig(
            normalized_sig(samples@),
            SOURCE_RATE as int,
            SAMPLE_RATE as int,
        ),
{
    if samples.len() == 0 {
        return Err(FingerprintError::EmptyInput);
    }
    let normalized = normalize_audio(samples);
    proof {
        assert(normalized@ =~= normalized_sig(samples@));
    }
    let down = downsample(&normalized, SOURCE_RATE, SAMPLE_RATE);
    proof {
        assert(down@ =~= downsampled_sig(normalized_sig(samples@), SOURCE_RATE as int,
            SAMPLE_RATE as int));
    }
    Ok(down)
}

} // verus!
