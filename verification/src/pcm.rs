//! Conversions on 16-bit PCM sample buffers.
use vstd::prelude::*;

verus! {

/// Integer division rounded toward zero, as Rust's `/` on signed integers.
pub open spec fn div_trunc(a: int, b: int) -> int
    recommends
        b > 0,
{
    if a >= 0 {
        a / b
    } else {
        -((-a) / b)
    }
}

/// Sum of the samples `s[lo..hi]`.
pub open spec fn sum_range(s: Seq<i16>, lo: int, hi: int) -> int
    decreases hi - lo,
{
    if hi <= lo {
        0
    } else {
        sum_range(s, lo, hi - 1) + s[hi - 1] as int
    }
}

/// The mono sample of frame `f`: the average of its `channels` interleaved
/// samples, rounded toward zero.
pub open spec fn frame_average(s: Seq<i16>, channels: int, f: int) -> int {
    div_trunc(sum_range(s, f * channels, f * channels + channels), channels)
}

proof fn lemma_sum_range_bounds(s: Seq<i16>, lo: int, hi: int)
    requires
        0 <= lo <= hi <= s.len(),
    ensures
        (hi - lo) * (i16::MIN as int) <= sum_range(s, lo, hi) <= (hi - lo) * (i16::MAX as int),
    decreases hi - lo,
{
    if hi > lo {
        lemma_sum_range_bounds(s, lo, hi - 1);
    }
}

proof fn lemma_frame_in_bounds(f: int, c: int, len: int)
    requires
        c > 0,
        len >= 0,
        0 <= f < len / c,
    ensures
        0 <= f * c,
        f * c + c <= len,
{
    vstd::arithmetic::div_mod::lemma_fundamental_div_mod(len, c);
    let q = len / c;
    let r = len % c;
    assert(0 <= f * c && f * c + c <= len) by (nonlinear_arith)
        requires
            len == c * q + r,
            r >= 0,
            f + 1 <= q,
            c > 0,
            f >= 0,
    ;
}

/// The mono signal that `stereo_to_mono` makes of `s` with `channels`
/// channels.
pub open spec fn mono_of(s: Seq<i16>, channels: int) -> Seq<i16> {
    if channels <= 1 {
        s
    } else {
        Seq::new((s.len() as int / channels) as nat, |f: int| frame_average(s, channels, f) as i16)
    }
}

/// A fresh vector holding the same samples as `samples`.
fn copy_samples(samples: &[i16]) -> (out: Vec<i16>)
    ensures
        out@ == samples@,
{
    let mut out: Vec<i16> = Vec::with_capacity(samples.len());
    let mut i: usize = 0;
    while i < samples.len()
        invariant
            i <= samples@.len(),
            out@ == samples@.subrange(0, i as int),
        decreases samples@.len() - i,
    {
        out.push(samples[i]);
        i = i + 1;
    }
    out
}

/// Down-mixes interleaved multi-channel audio to mono.
///
/// With one channel (or zero) the samples come back unchanged. Otherwise each
/// complete frame of `channels` samples becomes the average of its samples,
/// rounded toward zero; a trailing incomplete frame is dropped.
pub fn stereo_to_mono(samples: &[i16], channels: usize) -> (mono: Vec<i16>)
    ensures
        mono@ == mono_of(samples@, channels as int),
        channels <= 1 ==> mono@ == samples@,
        channels > 1 ==> {
            &&& mono@.len() == (samples@.len() as int) / (channels as int)
            &&& forall|f: int|
                0 <= f < mono@.len() ==> #[trigger] mono@[f] as int == frame_average(
                    samples@,
                    channels as int,
                    f,
                )
        },
{
    if channels <= 1 {
        return copy_samples(samples);
    }
    let frame_count = samples.len() / channels;
    let mut mono: Vec<i16> = Vec::with_capacity(frame_count);
    let mut frame: usize = 0;
    while frame < frame_count
        invariant
            channels > 1,
            samples@.len() <= usize::MAX,
            frame_count == (samples@.len() as int) / (channels as int),
            frame <= frame_count,
            mono@.len() == frame,
            forall|f: int|
                0 <= f < frame ==> #[trigger] mono@[f] as int == frame_average(
                    samples@,
                    channels as int,
                    f,
                ),
        decreases frame_count - frame,
    {
        proof {
            lemma_frame_in_bounds(frame as int, channels as int, samples@.len() as int);
        }
        let start = frame * channels;
        let end = start + channels;
        let mut sum: i128 = 0;
        let mut k: usize = start;
        while k < end
            invariant
                start <= k <= end,
                end <= samples@.len(),
                samples@.len() <= usize::MAX,
                end - start == channels,
                sum as int == sum_range(samples@, start as int, k as int),
            decreases end - k,
        {
            proof {
                lemma_sum_range_bounds(samples@, start as int, k as int);
                assert((k - start) * 32768 <= samples@.len() * 32768) by (nonlinear_arith)
                    requires k - start <= samples@.len();
                assert(samples@.len() * 32768 <= 0x1_0000_0000_0000_0000 * 32768) by (nonlinear_arith)
                    requires samples@.len() <= 0x1_0000_0000_0000_0000int;
            }
            sum = sum + samples[k] as i128;
            k = k + 1;
        }
        proof {
            lemma_sum_range_bounds(samples@, start as int, end as int);
        }
        let ch = channels as i128;
        let average: i128 = if sum >= 0 {
            sum / ch
        } else {
            -((-sum) / ch)
        };
        proof {
            let c = channels as int;
            let sm = sum as int;
            assert(c * (i16::MIN as int) <= sm <= c * (i16::MAX as int));
            if sm >= 0 {
                assert(sm / c <= i16::MAX) by (nonlinear_arith)
                    requires sm <= c * 32767, c > 0, sm >= 0;
            } else {
                assert((-sm) / c <= 32768) by (nonlinear_arith)
                    requires -sm <= c * 32768, c > 0, sm < 0;
            }
        }
        mono.push(average as i16);
        frame = frame + 1;
    }
    proof {
        assert forall|f: int| 0 <= f < mono@.len() implies mono@[f] == mono_of(samples@, channels as int)[f] by {
            assert(mono@[f] as int == frame_average(samples@, channels as int, f));
        }
        assert(mono@ =~= mono_of(samples@, channels as int));
    }
    mono
}

/// Number of samples that resampling `n` samples from `input_rate` to
/// `output_rate` yields: `n * output_rate / input_rate`, rounded up.
pub open spec fn resampled_len(n: nat, input_rate: u32, output_rate: u32) -> nat {
    if n == 0 {
        0
    } else if input_rate == output_rate {
        n
    } else {
        ((n * output_rate + input_rate - 1) / (input_rate as int)) as nat
    }
}

/// Output sample `i` of linear resampling from `input_rate` to `output_rate`.
///
/// It sits at position `i * input_rate / output_rate` of the input. Between
/// two input samples the value is interpolated linearly and rounded toward
/// zero; at or past the last input sample it is the last input sample.
pub open spec fn interpolated_sample(s: Seq<i16>, input_rate: u32, output_rate: u32, i: int) -> int {
    let p = i * input_rate;
    let index = p / (output_rate as int);
    let rem = p % (output_rate as int);
    if index + 1 < s.len() {
        div_trunc(
            s[index] as int * output_rate + (s[index + 1] as int - s[index] as int) * rem,
            output_rate as int,
        )
    } else {
        s.last() as int
    }
}

/// The signal that `resample_linear` makes of `s`.
pub open spec fn resampled_of(s: Seq<i16>, input_rate: u32, output_rate: u32) -> Seq<i16> {
    if input_rate == output_rate {
        s
    } else {
        Seq::new(
            resampled_len(s.len(), input_rate, output_rate),
            |i: int| interpolated_sample(s, input_rate, output_rate, i) as i16,
        )
    }
}

/// The smaller of two integers.
pub open spec fn min_int(a: int, b: int) -> int {
    if a <= b {
        a
    } else {
        b
    }
}

/// The larger of two integers.
pub open spec fn max_int(a: int, b: int) -> int {
    if a <= b {
        b
    } else {
        a
    }
}

proof fn lemma_interpolation_between(s1: int, s2: int, b: int, r: int)
    requires
        b > 0,
        0 <= r < b,
    ensures
        min_int(s1, s2) <= div_trunc(s1 * b + (s2 - s1) * r, b) <= max_int(s1, s2),
{
    let n = s1 * b + (s2 - s1) * r;
    let lo = min_int(s1, s2);
    let hi = max_int(s1, s2);
    assert(lo * b <= n <= hi * b) by (nonlinear_arith)
        requires
            n == s1 * b + (s2 - s1) * r,
            lo == min_int(s1, s2),
            hi == max_int(s1, s2),
            b > 0,
            0 <= r < b,
    ;
    if n >= 0 {
        assert(lo <= n / b <= hi) by (nonlinear_arith)
            requires
                lo * b <= n <= hi * b,
                b > 0,
                n >= 0,
        ;
    } else {
        assert(-hi <= (-n) / b <= -lo) by (nonlinear_arith)
            requires
                lo * b <= n <= hi * b,
                b > 0,
                n < 0,
        ;
    }
}

/// Resamples mono audio from `input_sample_rate` to `output_sample_rate` by
/// linear interpolation.
///
/// Empty input gives empty output and equal rates give the input back.
/// Otherwise the output has `resampled_len` samples, and output sample `i`
/// is `interpolated_sample(samples, input, output, i)`: the input read at
/// position `i * input / output`, interpolated between its two neighbours,
/// so it never leaves the range of those two samples.
///
/// The interpolation is computed exactly on integers; evaluating the same
/// formula in floating point can round some samples differently, by one
/// step.
pub fn resample_linear(samples: &[i16], input_sample_rate: u32, output_sample_rate: u32) -> (output: Vec<i16>)
    requires
        samples@.len() == 0 || input_sample_rate > 0 || output_sample_rate == 0,
        resampled_len(samples@.len(), input_sample_rate, output_sample_rate) <= usize::MAX,
    ensures
        output@ == resampled_of(samples@, input_sample_rate, output_sample_rate),
        output@.len() == resampled_len(samples@.len(), input_sample_rate, output_sample_rate),
        input_sample_rate == output_sample_rate ==> output@ == samples@,
        input_sample_rate != output_sample_rate ==> forall|i: int|
            0 <= i < output@.len() ==> #[trigger] output@[i] as int == interpolated_sample(
                samples@,
                input_sample_rate,
                output_sample_rate,
                i,
            ),
{
    let n = samples.len();
    if n == 0 {
        let empty: Vec<i16> = Vec::new();
        assert(empty@ =~= resampled_of(samples@, input_sample_rate, output_sample_rate));
        return empty;
    }
    if input_sample_rate == output_sample_rate {
        return copy_samples(samples);
    }
    let input = input_sample_rate as u128;
    let out_rate = output_sample_rate as u128;
    proof {
        assert(n as int * output_sample_rate as int <= 0x1_0000_0000_0000_0000 * 0x1_0000_0000int) by (nonlinear_arith)
            requires
                n <= 0x1_0000_0000_0000_0000int,
                output_sample_rate <= 0x1_0000_0000int,
        ;
    }
    let total: u128 = n as u128 * out_rate;
    let output_length_wide: u128 = (total + input - 1) / input;
    assert(output_length_wide == resampled_len(n as nat, input_sample_rate, output_sample_rate));
    if output_sample_rate == 0 {
        assert(total == 0) by (nonlinear_arith)
            requires total == n as int * out_rate as int, out_rate == 0;
        assert((input as int - 1) / (input as int) == 0) by (nonlinear_arith)
            requires input > 0;
    }
    let output_length = output_length_wide as usize;
    let mut output: Vec<i16> = Vec::new();
    let mut i: usize = 0;
    while i < output_length
        invariant
            n == samples@.len(),
            n > 0,
            input_sample_rate != output_sample_rate,
            input_sample_rate > 0,
            input == input_sample_rate,
            out_rate == output_sample_rate,
            output_length == resampled_len(n as nat, input_sample_rate, output_sample_rate),
            output_length > 0 ==> output_sample_rate > 0,
            i <= output_length,
            output@.len() == i,
            forall|j: int|
                0 <= j < i ==> #[trigger] output@[j] as int == interpolated_sample(
                    samples@,
                    input_sample_rate,
                    output_sample_rate,
                    j,
                ),
        decreases output_length - i,
    {
        proof {
            assert(i as int * input_sample_rate as int <= 0x1_0000_0000_0000_0000 * 0x1_0000_0000int) by (nonlinear_arith)
                requires
                    i <= 0x1_0000_0000_0000_0000int,
                    input_sample_rate <= 0x1_0000_0000int,
            ;
        }
        let position: u128 = i as u128 * input;
        let index_wide: u128 = position / out_rate;
        let rem: u128 = position % out_rate;
        if index_wide + 1 < n as u128 {
            let index = index_wide as usize;
            let s1 = samples[index] as i128;
            let s2 = samples[index + 1] as i128;
            proof {
                assert(s1 * out_rate <= 32768 * 0x1_0000_0000int && s1 * out_rate >= -32768 * 0x1_0000_0000int) by (nonlinear_arith)
                    requires
                        -32768 <= s1 <= 32767,
                        0 < out_rate <= 0x1_0000_0000int,
                ;
                assert((s2 - s1) * rem <= 65536 * 0x1_0000_0000int && (s2 - s1) * rem >= -65536 * 0x1_0000_0000int) by (nonlinear_arith)
                    requires
                        -65536 <= s2 - s1 <= 65536,
                        0 <= rem < 0x1_0000_0000int,
                ;
            }
            let numerator: i128 = s1 * out_rate as i128 + (s2 - s1) * rem as i128;
            let denominator = out_rate as i128;
            let value: i128 = if numerator >= 0 {
                numerator / denominator
            } else {
                -((-numerator) / denominator)
            };
            proof {
                lemma_interpolation_between(s1 as int, s2 as int, out_rate as int, rem as int);
            }
            output.push(value as i16);
        } else {
            output.push(samples[n - 1]);
        }
        i = i + 1;
    }
    proof {
        assert forall|j: int| 0 <= j < output@.len() implies output@[j] == resampled_of(samples@, input_sample_rate, output_sample_rate)[j] by {
            assert(output@[j] as int == interpolated_sample(samples@, input_sample_rate, output_sample_rate, j));
        }
        assert(output@ =~= resampled_of(samples@, input_sample_rate, output_sample_rate));
    }
    output
}

/// A resampled sample never leaves the range of the input samples it is
/// interpolated from: the two input samples around its position, or the last
/// input sample past the end.
pub proof fn lemma_resampled_sample_between_neighbours(
    s: Seq<i16>,
    input_rate: u32,
    output_rate: u32,
    i: int,
)
    requires
        s.len() > 0,
        output_rate > 0,
        i >= 0,
    ensures
        ({
            let index = (i * input_rate) / (output_rate as int);
            let v = interpolated_sample(s, input_rate, output_rate, i);
            &&& index + 1 < s.len() ==> min_int(s[index] as int, s[index + 1] as int) <= v
                <= max_int(s[index] as int, s[index + 1] as int)
            &&& index + 1 >= s.len() ==> v == s.last() as int
        }),
{
    let p = i * input_rate;
    assert(p >= 0) by (nonlinear_arith)
        requires i >= 0, p == i * input_rate;
    let index = p / (output_rate as int);
    let rem = p % (output_rate as int);
    if index + 1 < s.len() {
        lemma_interpolation_between(s[index] as int, s[index + 1] as int, output_rate as int, rem);
    }
}

/// Rounding toward zero keeps order: `x <= y` gives
/// `div_trunc(x, b) <= div_trunc(y, b)`.
proof fn lemma_div_trunc_ordered(x: int, y: int, b: int)
    requires
        x <= y,
        b > 0,
    ensures
        div_trunc(x, b) <= div_trunc(y, b),
{
    if x >= 0 {
        vstd::arithmetic::div_mod::lemma_div_is_ordered(x, y, b);
    } else if y < 0 {
        vstd::arithmetic::div_mod::lemma_div_is_ordered(-y, -x, b);
    } else {
        vstd::arithmetic::div_mod::lemma_div_is_ordered(0, -x, b);
        vstd::arithmetic::div_mod::lemma_div_is_ordered(0, y, b);
        assert(0int / b == 0) by (nonlinear_arith)
            requires b > 0;
    }
}

/// An interpolated sample is a valid 16-bit sample.
proof fn lemma_interpolated_in_range(s: Seq<i16>, input_rate: u32, output_rate: u32, i: int)
    requires
        s.len() > 0,
        output_rate > 0,
        i >= 0,
    ensures
        i16::MIN <= interpolated_sample(s, input_rate, output_rate, i) <= i16::MAX,
{
    lemma_resampled_sample_between_neighbours(s, input_rate, output_rate, i);
}

/// Each resampled sample weighs its two neighbouring input samples by how
/// close it sits to each. Output sample `i` sits at `i * input_rate /
/// output_rate`; writing `i * input_rate = k * output_rate + r` with
/// `0 <= r < output_rate`, when both `s[k]` and `s[k + 1]` exist the output
/// is `(s[k] * (output_rate - r) + s[k + 1] * r) / output_rate`, rounded
/// toward zero: the later neighbour has weight `r / output_rate`. Past the
/// last pair the output is the last input sample.
pub proof fn lemma_resampled_sample_weights(s: Seq<i16>, input_rate: u32, output_rate: u32, i: int)
    requires
        input_rate != output_rate,
        output_rate > 0,
        s.len() > 0,
        0 <= i < resampled_len(s.len(), input_rate, output_rate),
    ensures
        ({
            let p = i * input_rate;
            let k = p / (output_rate as int);
            let r = p % (output_rate as int);
            let out = resampled_of(s, input_rate, output_rate);
            &&& 0 <= r < output_rate
            &&& k * output_rate + r == p
            &&& k + 1 < s.len() ==> out[i] as int == div_trunc(
                s[k] as int * (output_rate - r) + s[k + 1] as int * r,
                output_rate as int,
            )
            &&& k + 1 >= s.len() ==> out[i] == s.last()
        }),
{
    let b = output_rate as int;
    let p = i * input_rate;
    let k = p / b;
    let r = p % b;
    vstd::arithmetic::div_mod::lemma_fundamental_div_mod(p, b);
    assert(k * b == b * k) by (nonlinear_arith);
    lemma_interpolated_in_range(s, input_rate, output_rate, i);
    if k + 1 < s.len() {
        let s1 = s[k] as int;
        let s2 = s[k + 1] as int;
        assert(s1 * b + (s2 - s1) * r == s1 * (b - r) + s2 * r) by (nonlinear_arith);
    }
}

/// Resampling keeps order: an input that never decreases gives an output
/// that never decreases.
pub proof fn lemma_resampled_keeps_order(s: Seq<i16>, input_rate: u32, output_rate: u32, i: int, j: int)
    requires
        forall|x: int, y: int| 0 <= x <= y < s.len() ==> s[x] <= s[y],
        output_rate > 0,
        0 <= i <= j < resampled_len(s.len(), input_rate, output_rate),
    ensures
        resampled_of(s, input_rate, output_rate)[i] <= resampled_of(s, input_rate, output_rate)[j],
{
    if input_rate == output_rate {
        return;
    }
    let b = output_rate as int;
    let pi = i * input_rate;
    let pj = j * input_rate;
    assert(0 <= pi <= pj) by (nonlinear_arith)
        requires 0 <= i <= j, input_rate >= 0, pi == i * input_rate, pj == j * input_rate;
    lemma_resampled_sample_weights(s, input_rate, output_rate, i);
    lemma_resampled_sample_weights(s, input_rate, output_rate, j);
    let ki = pi / b;
    let kj = pj / b;
    let ri = pi % b;
    let rj = pj % b;
    vstd::arithmetic::div_mod::lemma_div_is_ordered(pi, pj, b);
    let out = resampled_of(s, input_rate, output_rate);
    let last = s.last() as int;
    if kj + 1 >= s.len() {
        if ki + 1 < s.len() {
            let n = s[ki] as int * (b - ri) + s[ki + 1] as int * ri;
            assert(s[ki + 1] <= s.last());
            assert(s[ki] <= s[ki + 1]);
            assert(n <= last * b) by (nonlinear_arith)
                requires
                    n == s[ki] as int * (b - ri) + s[ki + 1] as int * ri,
                    s[ki] as int <= s[ki + 1] as int <= last,
                    0 <= ri < b,
            ;
            lemma_div_trunc_ordered(n, last * b, b);
            assert(div_trunc(last * b, b) == last) by {
                if last >= 0 {
                    assert((last * b) / b == last) by (nonlinear_arith)
                        requires b > 0, last >= 0;
                } else {
                    assert(last * b < 0) by (nonlinear_arith)
                        requires b > 0, last < 0;
                    assert((-(last * b)) / b == -last) by (nonlinear_arith)
                        requires b > 0, last < 0;
                }
            }
        }
    } else {
        let ni = s[ki] as int * (b - ri) + s[ki + 1] as int * ri;
        let nj = s[kj] as int * (b - rj) + s[kj + 1] as int * rj;
        if ki == kj {
            assert(ri <= rj);
            assert(s[ki] <= s[ki + 1]);
            assert(ni <= nj) by (nonlinear_arith)
                requires
                    ni == s[ki] as int * (b - ri) + s[ki + 1] as int * ri,
                    nj == s[ki] as int * (b - rj) + s[ki + 1] as int * rj,
                    s[ki] as int <= s[ki + 1] as int,
                    ri <= rj,
            ;
        } else {
            assert(ki + 1 <= kj);
            assert(s[ki] <= s[ki + 1]);
            assert(s[ki + 1] <= s[kj]);
            assert(s[kj] <= s[kj + 1]);
            assert(ni <= s[ki + 1] as int * b) by (nonlinear_arith)
                requires
                    ni == s[ki] as int * (b - ri) + s[ki + 1] as int * ri,
                    s[ki] as int <= s[ki + 1] as int,
                    0 <= ri < b,
            ;
            assert(s[ki + 1] as int * b <= s[kj] as int * b) by (nonlinear_arith)
                requires s[ki + 1] as int <= s[kj] as int, b > 0;
            assert(s[kj] as int * b <= nj) by (nonlinear_arith)
                requires
                    nj == s[kj] as int * (b - rj) + s[kj + 1] as int * rj,
                    s[kj] as int <= s[kj + 1] as int,
                    0 <= rj < b,
            ;
        }
        lemma_div_trunc_ordered(ni, nj, b);
    }
}

/// Where an output position falls exactly on an input sample (that is not
/// the last one), the output sample is that input sample.
pub proof fn lemma_resampled_sample_on_grid(s: Seq<i16>, input_rate: u32, output_rate: u32, i: int)
    requires
        output_rate > 0,
        i >= 0,
        (i * input_rate) % (output_rate as int) == 0,
        (i * input_rate) / (output_rate as int) + 1 < s.len(),
    ensures
        interpolated_sample(s, input_rate, output_rate, i) == s[(i * input_rate) / (
        output_rate as int)] as int,
{
    let p = i * input_rate;
    let index = p / (output_rate as int);
    let rem = p % (output_rate as int);
    let s1 = s[index] as int;
    let s2 = s[index + 1] as int;
    let b = output_rate as int;
    let n = s1 * b + (s2 - s1) * rem;
    assert(n == s1 * b) by (nonlinear_arith)
        requires n == s1 * b + (s2 - s1) * rem, rem == 0;
    if s1 >= 0 {
        assert(n >= 0 && n / b == s1) by (nonlinear_arith)
            requires b > 0, n == s1 * b, s1 >= 0;
    } else {
        assert(n < 0 && (-n) / b == -s1) by (nonlinear_arith)
            requires b > 0, n == s1 * b, s1 < 0;
    }
}

/// Raising the sample rate lengthens a non-empty signal, and lowering it never
/// lengthens one.
pub proof fn lemma_resampled_len_follows_rate(n: nat, input_rate: u32, output_rate: u32)
    requires
        n > 0,
        input_rate > 0,
    ensures
        input_rate < output_rate ==> resampled_len(n, input_rate, output_rate) > n,
        output_rate <= input_rate ==> resampled_len(n, input_rate, output_rate) <= n,
{
    let a = input_rate as int;
    let b = output_rate as int;
    if a < b {
        assert((n * b + a - 1) / a > n) by (nonlinear_arith)
            requires
                0 < a < b,
                n > 0,
        ;
    } else if b < a {
        assert((n * b + a - 1) / a <= n) by (nonlinear_arith)
            requires
                0 <= b < a,
                n > 0,
        ;
    }
}

/// Converts unsigned 16-bit samples, centred on 32768, to signed samples
/// centred on zero.
pub fn samples_from_u16(data: &[u16]) -> (samples: Vec<i16>)
    ensures
        samples@.len() == data@.len(),
        forall|i: int| 0 <= i < data@.len() ==> #[trigger] samples@[i] as int == data@[i] as int - 32768,
{
    let mut samples: Vec<i16> = Vec::with_capacity(data.len());
    let mut i: usize = 0;
    while i < data.len()
        invariant
            i <= data@.len(),
            samples@.len() == i,
            forall|j: int| 0 <= j < i ==> #[trigger] samples@[j] as int == data@[j] as int - 32768,
        decreases data@.len() - i,
    {
        samples.push((data[i] as i32 - 32768) as i16);
        i = i + 1;
    }
    samples
}

/// Sum of the magnitudes of the samples.
pub open spec fn abs_sum(s: Seq<i16>) -> int
    decreases s.len(),
{
    if s.len() == 0 {
        0
    } else {
        abs_sum(s.drop_last()) + abs_int(s.last() as int)
    }
}

/// The magnitude of `x`.
pub open spec fn abs_int(x: int) -> int {
    if x < 0 {
        -x
    } else {
        x
    }
}

/// The largest magnitude among the samples, or 0 for no samples.
pub open spec fn max_abs(s: Seq<i16>) -> int
    decreases s.len(),
{
    if s.len() == 0 {
        0
    } else {
        max_int(max_abs(s.drop_last()), abs_int(s.last() as int))
    }
}

/// The largest magnitude among the samples, or 0 when there are none; the
/// magnitude of `i16::MIN` counts as 32768.
pub fn max_amplitude(samples: &[i16]) -> (m: i32)
    ensures
        m == max_abs(samples@),
{
    let mut m: i32 = 0;
    let mut i: usize = 0;
    while i < samples.len()
        invariant
            i <= samples@.len(),
            m == max_abs(samples@.subrange(0, i as int)),
        decreases samples@.len() - i,
    {
        let v = samples[i];
        let a: i32 = if v < 0 {
            -(v as i32)
        } else {
            v as i32
        };
        assert(samples@.subrange(0, i as int + 1).drop_last() =~= samples@.subrange(0, i as int));
        if a > m {
            m = a;
        }
        i = i + 1;
    }
    assert(samples@.subrange(0, samples@.len() as int) =~= samples@);
    m
}

/// The mean magnitude of the samples, rounded down, or 0 when there are
/// none.
pub fn average_amplitude(samples: &[i16]) -> (avg: u64)
    requires
        abs_sum(samples@) <= u64::MAX,
    ensures
        samples@.len() == 0 ==> avg == 0,
        samples@.len() > 0 ==> avg == abs_sum(samples@) / (samples@.len() as int),
{
    let n = samples.len();
    if n == 0 {
        return 0;
    }
    let mut total: u64 = 0;
    let mut i: usize = 0;
    while i < n
        invariant
            n == samples@.len(),
            i <= n,
            abs_sum(samples@) <= u64::MAX,
            total == abs_sum(samples@.subrange(0, i as int)),
        decreases n - i,
    {
        proof {
            lemma_abs_sum_prefix_grows(samples@, i as int + 1);
        }
        assert(samples@.subrange(0, i as int + 1).drop_last() =~= samples@.subrange(0, i as int));
        let v = samples[i] as i32;
        let a: u64 = if v < 0 {
            (-v) as u64
        } else {
            v as u64
        };
        total = total + a;
        i = i + 1;
    }
    assert(samples@.subrange(0, n as int) =~= samples@);
    total / n as u64
}

proof fn lemma_abs_sum_prefix_grows(s: Seq<i16>, k: int)
    requires
        0 <= k <= s.len(),
    ensures
        abs_sum(s.subrange(0, k)) <= abs_sum(s),
    decreases s.len() - k,
{
    if k < s.len() {
        lemma_abs_sum_prefix_grows(s, k + 1);
        assert(s.subrange(0, k + 1).drop_last() =~= s.subrange(0, k));
    } else {
        assert(s.subrange(0, k) =~= s);
    }
}

} // verus!
