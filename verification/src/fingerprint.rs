//! Fingerprint generation: each peak (the anchor) is paired with the next
//! `TARGET_ZONE_SIZE` peaks (the targets), and each pair is packed into a
//! 32-bit hash of three fields — 9 bits of quantized anchor frequency, 9 bits
//! of quantized target frequency, and 14 bits of time delta in milliseconds.

use vstd::prelude::*;
use crate::assoc::{seq_insert, OrderedMap};
use crate::spectrogram::{peaks_spec, spectrogram_spec, Peak};

verus! {

/// An inverted-index posting: when (in ms) the anchor of a hash occurred,
/// and in which song.
#[derive(Clone, Copy, PartialEq, Eq, Structural, Debug)]
pub struct KeyAudioPoint {
    pub anchor_time_ms: i32,
    pub song_id: i32,
}

/// The 32-bit fingerprint hash of an anchor/target pair, as arithmetic:
/// `(f_a quantized to 10 Hz, kept mod 2^9) * 2^23
///  + (f_t quantized likewise) * 2^14
///  + (time delta in ms, kept mod 2^14)`.
/// The three fields occupy disjoint bit ranges, so the sum is the bitwise
/// packing `(f_a << 23) | (f_t << 14) | dt`.
pub open spec fn hash_of(anchor: Peak, target: Peak) -> int {
    let fa = ((anchor.frequency as int) / 10) % 512;
    let ft = ((target.frequency as int) / 10) % 512;
    let dt = ((target.time_ms as int) - (anchor.time_ms as int)) % 16384;
    fa * 8388608 + ft * 16384 + dt
}

/// Packs an anchor/target pair into its 32-bit hash.  The anchor is the
/// earlier peak; a delta of 2^14 ms or more wraps around the 14-bit field.
pub fn gen_hash(anchor: &Peak, target: &Peak) -> (h: u32)
    requires
        anchor.time_ms <= target.time_ms,
    ensures
        h == hash_of(*anchor, *target),
{
    let fa: u64 = (anchor.frequency / 10) % 512;
    let ft: u64 = (target.frequency / 10) % 512;
    let dt: u64 = (target.time_ms - anchor.time_ms) % 16384;
    let h: u64 = fa * 8388608 + ft * 16384 + dt;
    h as u32
}

/// The posting recorded for an anchor peak.
pub open spec fn posting_of(anchor: Peak, song_id: u32) -> KeyAudioPoint {
    KeyAudioPoint { anchor_time_ms: anchor.time_ms as i32, song_id: song_id as i32 }
}

/// Exclusive end of the target indices of anchor `i`: up to
/// `TARGET_ZONE_SIZE` peaks after the anchor, bounded by the sequence.
pub open spec fn target_end(len: int, i: int) -> int {
    if i + 6 <= len {
        i + 6
    } else {
        len
    }
}

/// The fingerprint entries after pairing anchor `i` with targets
/// `i + 1 .. j`, starting from `s`.
pub open spec fn fp_after_targets(
    peaks: Seq<Peak>,
    song_id: u32,
    i: int,
    j: int,
    s: Seq<(u32, KeyAudioPoint)>,
) -> Seq<(u32, KeyAudioPoint)>
    decreases j - i,
{
    if j <= i + 1 {
        s
    } else {
        seq_insert(
            fp_after_targets(peaks, song_id, i, j - 1, s),
            hash_of(peaks[i], peaks[j - 1]) as u32,
            posting_of(peaks[i], song_id),
        )
    }
}

/// The fingerprint entries after processing the first `i` anchors.
pub open spec fn fp_after_anchors(peaks: Seq<Peak>, song_id: u32, i: int) -> Seq<
    (u32, KeyAudioPoint),
>
    decreases i,
{
    if i <= 0 {
        Seq::empty()
    } else {
        fp_after_targets(
            peaks,
            song_id,
            i - 1,
            target_end(peaks.len() as int, i - 1),
            fp_after_anchors(peaks, song_id, i - 1),
        )
    }
}

/// The whole fingerprint map of a peak sequence.
pub open spec fn gen_fingerprints_spec(peaks: Seq<Peak>, song_id: u32) -> Seq<
    (u32, KeyAudioPoint),
> {
    fp_after_anchors(peaks, song_id, peaks.len() as int)
}

/// Pairs every peak with the `TARGET_ZONE_SIZE` peaks after it and maps each
/// pair's hash to the posting of its anchor.  A hash produced twice keeps the
/// posting of the later pair.
pub fn gen_fingerprints(peaks: &Vec<Peak>, song_id: u32) -> (fp: OrderedMap<KeyAudioPoint>)
    requires
        forall|a: int, b: int|
            0 <= a <= b < peaks@.len() ==> (#[trigger] peaks@[a]).time_ms <= (
            #[trigger] peaks@[b]).time_ms,
        forall|a: int| 0 <= a < peaks@.len() ==> (#[trigger] peaks@[a]).time_ms < 2147483648,
        song_id < 2147483648,
    ensures
        fp@ == gen_fingerprints_spec(peaks@, song_id),
        fp.wf(),
{
    let mut fp: OrderedMap<KeyAudioPoint> = OrderedMap::new();
    let n: usize = peaks.len();
    let mut i: usize = 0;
    while i < n
        invariant
            n == peaks@.len(),
            i <= n,
            forall|a: int, b: int|
                0 <= a <= b < peaks@.len() ==> (#[trigger] peaks@[a]).time_ms <= (
                #[trigger] peaks@[b]).time_ms,
            forall|a: int| 0 <= a < peaks@.len() ==> (#[trigger] peaks@[a]).time_ms < 2147483648,
            song_id < 2147483648,
            fp@ == fp_after_anchors(peaks@, song_id, i as int),
            fp.wf(),
        decreases n - i,
    {
        let jend: usize = if n - i > 6 {
            i + 6
        } else {
            n
        };
        proof {
            assert(jend as int == target_end(peaks@.len() as int, i as int));
        }
        let mut j: usize = i + 1;
        while j < jend
            invariant
                n == peaks@.len(),
                i < n,
                i + 1 <= j <= jend,
                jend <= n,
                jend as int == target_end(peaks@.len() as int, i as int),
                forall|a: int, b: int|
                    0 <= a <= b < peaks@.len() ==> (#[trigger] peaks@[a]).time_ms <= (
                    #[trigger] peaks@[b]).time_ms,
                forall|a: int| 0 <= a < peaks@.len() ==> (#[trigger] peaks@[a]).time_ms
                    < 2147483648,
                song_id < 2147483648,
                fp@ == fp_after_targets(
                    peaks@,
                    song_id,
                    i as int,
                    j as int,
                    fp_after_anchors(peaks@, song_id, i as int),
                ),
                fp.wf(),
            decreases jend - j,
        {
            let anchor: Peak = peaks[i];
            let target: Peak = peaks[j];
            let h: u32 = gen_hash(&anchor, &target);
            fp.insert(
                h,
                KeyAudioPoint {
                    anchor_time_ms: anchor.time_ms as i32,
                    song_id: song_id as i32,
                },
            );
            j = j + 1;
        }
        i = i + 1;
    }
    fp
}

/// The frames of a spectrogram as unsigned magnitudes.
pub open spec fn mags_of(sp: Seq<Seq<int>>) -> Seq<Seq<u64>> {
    Seq::new(sp.len(), |i: int| Seq::new(sp[i].len(), |k: int| sp[i][k] as u64))
}

/// The fingerprint map of one channel: spectrogram, peaks, then pairing.
pub open spec fn channel_fp(samples: Seq<i16>, sr: int, total: int, song_id: u32) -> Seq<
    (u32, KeyAudioPoint),
> {
    gen_fingerprints_spec(
        peaks_spec(mags_of(spectrogram_spec(samples, sr)), total, sr),
        song_id,
    )
}

/// Folds the first `j` entries of `right` into `left` by insertion; a hash
/// present in both keeps the posting from `right`.
pub open spec fn merge_entries(
    left: Seq<(u32, KeyAudioPoint)>,
    right: Seq<(u32, KeyAudioPoint)>,
    j: int,
) -> Seq<(u32, KeyAudioPoint)>
    decreases j,
{
    if j <= 0 {
        left
    } else {
        seq_insert(merge_entries(left, right, j - 1), right[j - 1].0, right[j - 1].1)
    }
}

/// The fingerprint map of a whole recording: the left channel's map with the
/// right channel's map merged over it.
pub open spec fn fingerprint_audio_spec(wav: crate::wav::WavInfo, song_id: u32) -> Seq<
    (u32, KeyAudioPoint),
> {
    let sr = wav.sample_rate as int;
    let total = wav.total_frames as int;
    let lf = channel_fp(wav.left_channel_samples@, sr, total, song_id);
    let rf = channel_fp(wav.right_channel_samples@, sr, total, song_id);
    merge_entries(lf, rf, rf.len() as int)
}

/// A spectrogram has at most one frame per decimated sample.
proof fn lemma_num_frames_le(len: int)
    requires
        len >= 0,
    ensures
        0 <= crate::spectrogram::num_frames(len) <= len,
{
    if len > 1024 {
        vstd::arithmetic::div_mod::lemma_div_nonincreasing(len - 1025, 512);
        vstd::arithmetic::div_mod::lemma_div_pos_is_pos(len - 1025, 512);
    }
}

/// The views of computed frames coincide with the specified magnitudes.
proof fn lemma_frames_eq(spect: Seq<Vec<u64>>, sp: Seq<Seq<int>>)
    requires
        spect.len() == sp.len(),
        forall|i: int| 0 <= i < sp.len() ==> #[trigger] spect[i]@.len() == 1024,
        forall|i: int| 0 <= i < sp.len() ==> #[trigger] sp[i].len() == 1024,
        forall|i: int, k: int|
            0 <= i < sp.len() && 0 <= k < 1024 ==> #[trigger] spect[i]@[k] == sp[i][k],
    ensures
        crate::spectrogram::frames_of(spect) == mags_of(sp),
{
    assert(crate::spectrogram::frames_of(spect) =~~= mags_of(sp));
}

/// Fingerprints one channel of a decoded recording.
#[verifier::rlimit(100)]
fn channel_fingerprints(
    samples: &Vec<i16>,
    sample_rate: u32,
    total_frames: u32,
    song_id: u32,
) -> (r: Result<OrderedMap<KeyAudioPoint>, u8>)
    requires
        total_frames < 0x80000000,
        samples@.len() <= total_frames as int * 2 + 1,
        1000 * (total_frames as int) < 2147483648 * (sample_rate as int),
        song_id < 2147483648,
    ensures
        r is Ok <==> (samples@.len() == 0 || sample_rate >= 4),
        r is Err ==> r->Err_0 == crate::declarations::SPECTROGRAM_GENERATION_FAILURE,
        r is Ok ==> r->Ok_0.wf(),
        r is Ok && samples@.len() == 0 ==> r->Ok_0@.len() == 0,
        r is Ok && sample_rate >= 4 ==> r->Ok_0@ == channel_fp(
            samples@,
            sample_rate as int,
            total_frames as int,
            song_id,
        ),
{
    let spect: Vec<Vec<u64>> = match crate::spectrogram::gen_spectrogram(samples, sample_rate) {
        Ok(s) => s,
        Err(code) => {
            return Err(code);
        },
    };
    proof {
        lemma_num_frames_le(crate::spectrogram::downsample_spec(
            crate::spectrogram::lowpass_spec(samples@, sample_rate as int),
            crate::spectrogram::decim_ratio(sample_rate as int),
        ).len() as int);
        if sample_rate >= 4 {
            let sp = crate::spectrogram::spectrogram_spec(samples@, sample_rate as int);
            assert(forall|i: int| 0 <= i < sp.len() ==> #[trigger] sp[i].len() == 1024);
            lemma_frames_eq(spect@, sp);
        }
        if samples@.len() == 0 {
            assert(spect@.len() == 0);
        }
        assert(spect@.len() <= 1099511627776) by {
            if sample_rate >= 4 {
                let rr = crate::spectrogram::decim_ratio(sample_rate as int);
                crate::spectrogram::lemma_decim_ratio_bounds(sample_rate as int);
                crate::spectrogram::lemma_ceil_div_le(samples@.len() as int, rr);
            }
        }
    }
    let peaks: Vec<crate::spectrogram::Peak> = crate::spectrogram::get_peaks(
        &spect,
        total_frames as u64,
        sample_rate,
    );
    proof {
        let sp = crate::spectrogram::frames_of(spect@);
        let total = total_frames as int;
        let sri = sample_rate as int;
        if spect@.len() > 0 {
            crate::spectrogram::lemma_peaks_spec_ordered(sp, total, sri, sp.len() as int);
            assert forall|a: int| 0 <= a < peaks@.len() implies (#[trigger] peaks@[a]).time_ms
                < 2147483648 by {
                assert(sri * (peaks@[a].time_ms as int) <= 1000 * total);
                vstd::arithmetic::mul::lemma_mul_is_commutative(sri, peaks@[a].time_ms as int);
                vstd::arithmetic::mul::lemma_mul_is_commutative(sri, 2147483648);
                vstd::arithmetic::mul::lemma_mul_strict_inequality_converse(
                    peaks@[a].time_ms as int,
                    2147483648,
                    sri,
                );
            }
        }
    }
    let fp: OrderedMap<KeyAudioPoint> = gen_fingerprints(&peaks, song_id);
    Ok(fp)
}

/// Generates the fingerprint of a decoded recording: the left and right
/// channels are fingerprinted independently and merged under one song id,
/// the right channel winning colliding hashes.
pub fn fingerprint_audio(wav: &crate::wav::WavInfo, song_id: u32) -> (r: Result<
    OrderedMap<KeyAudioPoint>,
    u8,
>)
    requires
        wav.wf(),
        1000 * (wav.total_frames as int) < 2147483648 * (wav.sample_rate as int),
        song_id < 2147483648,
    ensures
        r is Ok <==> (wav.sample_rate >= 4 || (wav.left_channel_samples@.len() == 0
            && wav.right_channel_samples@.len() == 0)),
        r is Err ==> r->Err_0 == crate::declarations::SPECTROGRAM_GENERATION_FAILURE,
        r is Ok ==> r->Ok_0.wf(),
        r is Ok && wav.sample_rate >= 4 ==> r->Ok_0@ == fingerprint_audio_spec(*wav, song_id),
        r is Ok && wav.left_channel_samples@.len() == 0 && wav.right_channel_samples@.len() == 0
            ==> r->Ok_0@.len() == 0,
{
    let mut fp: OrderedMap<KeyAudioPoint> = match channel_fingerprints(
        &wav.left_channel_samples,
        wav.sample_rate,
        wav.total_frames,
        song_id,
    ) {
        Ok(m) => m,
        Err(code) => {
            return Err(code);
        },
    };
    let rp: OrderedMap<KeyAudioPoint> = match channel_fingerprints(
        &wav.right_channel_samples,
        wav.sample_rate,
        wav.total_frames,
        song_id,
    ) {
        Ok(m) => m,
        Err(code) => {
            return Err(code);
        },
    };
    let ghost lf = fp@;
    let rn: usize = rp.len();
    let mut j: usize = 0;
    while j < rn
        invariant
            rn == rp@.len(),
            j <= rn,
            fp.wf(),
            fp@ == merge_entries(lf, rp@, j as int),
        decreases rn - j,
    {
        let k: u32 = rp.entries[j].0;
        let v: KeyAudioPoint = rp.entries[j].1;
        fp.insert(k, v);
        j = j + 1;
    }
    proof {
        if wav.sample_rate < 4 {
            assert(fp@.len() == 0) by {
                assert(lf.len() == 0 && rp@.len() == 0);
            }
        }
    }
    Ok(fp)
}

/// Determinism of the pipeline: the fingerprint map depends only on the
/// decoded samples, the sample rate and the frame count, so running the
/// engine twice over the same audio yields identical hashes and postings —
/// and, against the same catalog, identical ranked matches.
pub proof fn lemma_fingerprint_audio_deterministic(
    a: crate::wav::WavInfo,
    b: crate::wav::WavInfo,
    song_id: u32,
)
    requires
        a.sample_rate == b.sample_rate,
        a.total_frames == b.total_frames,
        a.left_channel_samples@ == b.left_channel_samples@,
        a.right_channel_samples@ == b.right_channel_samples@,
    ensures
        fingerprint_audio_spec(a, song_id) == fingerprint_audio_spec(b, song_id),
{
}

} // verus!
