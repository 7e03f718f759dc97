use recognizer::declarations::SPECTROGRAM_GENERATION_FAILURE;
use recognizer::math::{build_hann_window, isqrt64};
use recognizer::spectrogram::{downsample, gen_spectrogram, get_peaks, lowpass_filter};

fn tone(sample_rate: u32, seconds: f64, freq: f64, amplitude: f64) -> Vec<i16> {
    let n = (sample_rate as f64 * seconds) as usize;
    (0..n)
        .map(|i| {
            let t = i as f64 / sample_rate as f64;
            (amplitude * (2.0 * std::f64::consts::PI * freq * t).sin()) as i16
        })
        .collect()
}

#[test]
fn isqrt_spot_checks() {
    assert_eq!(isqrt64(0), 0);
    assert_eq!(isqrt64(1), 1);
    assert_eq!(isqrt64(3), 1);
    assert_eq!(isqrt64(4), 2);
    assert_eq!(isqrt64(10), 3);
    assert_eq!(isqrt64(999_999), 999);
    assert_eq!(isqrt64(1_000_000), 1000);
    assert_eq!(isqrt64(u64::MAX), 4_294_967_295);
}

#[test]
fn lowpass_converges_to_constant_input() {
    // Unity DC gain: a constant level of 1000 comes out as 1000 (the Q12
    // output converges to 1000 * 4096 up to truncation granularity).
    let input: Vec<i16> = vec![1000; 5000];
    let out = lowpass_filter(&input, 44_100);
    assert_eq!(out.len(), input.len());
    let last = *out.last().unwrap();
    let target = 1000i64 * 4096;
    assert!(last <= target);
    assert!(target - last <= 3, "converged only to {last}");
    // Rounded back to sample units, the steady state is exactly the input.
    assert_eq!((last + 2048) / 4096, 1000);
    // The climb is monotone.
    for w in out.windows(2) {
        assert!(w[0] <= w[1]);
    }
}

#[test]
fn downsample_length_is_ceiling() {
    // N samples at block ratio r yield ceil(N / r) means.
    let input: Vec<i64> = (0..10).collect();
    let out = downsample(&input, 8, 2).unwrap();
    assert_eq!(out.len(), 3);

    let input: Vec<i64> = (0..12).collect();
    let out = downsample(&input, 8, 2).unwrap();
    assert_eq!(out.len(), 3);

    let input: Vec<i64> = (0..13).collect();
    let out = downsample(&input, 8, 2).unwrap();
    assert_eq!(out.len(), 4);
}

#[test]
fn downsample_takes_block_means() {
    let input: Vec<i64> = vec![0, 4, 8, 12, 16, 20];
    // Ratio 8 / 2 = 4: blocks [0,4,8,12] and [16,20].
    let out = downsample(&input, 8, 2).unwrap();
    assert_eq!(out, vec![6, 18]);
}

#[test]
fn downsample_rejects_bad_rates() {
    let input: Vec<i64> = vec![1, 2, 3];
    assert_eq!(downsample(&input, 8, 9), Err(SPECTROGRAM_GENERATION_FAILURE));
    assert_eq!(downsample(&input, 8, 0), Err(SPECTROGRAM_GENERATION_FAILURE));
}

#[test]
fn hann_window_laws_hold_concretely() {
    let w = build_hann_window();
    assert_eq!(w.len(), 1024);
    assert_eq!(w[0], 0);
    assert_eq!(w[1023], 0);
    assert_eq!(w[512], 32_768);
    for k in 0..1024 {
        assert_eq!(w[k], w[1023 - k]);
        assert!(w[k] >= 0 && w[k] <= w[512]);
    }
}

#[test]
fn spectrogram_of_empty_input_is_empty() {
    let empty: Vec<i16> = Vec::new();
    let sp = gen_spectrogram(&empty, 44_100).unwrap();
    assert_eq!(sp.len(), 0);
    // Even a nonsensical rate succeeds on empty input.
    let sp = gen_spectrogram(&empty, 1).unwrap();
    assert_eq!(sp.len(), 0);
}

#[test]
fn spectrogram_rejects_rates_below_dsp_ratio() {
    let input: Vec<i16> = vec![1; 100];
    assert_eq!(
        gen_spectrogram(&input, 3),
        Err(SPECTROGRAM_GENERATION_FAILURE)
    );
}

#[test]
fn spectrogram_frame_count_and_width() {
    // 2 s at 44.1 kHz decimates to 22050 samples; window starts step by 512
    // while start + 1024 < 22050, giving 42 frames of 1024 bins.
    let input = tone(44_100, 2.0, 440.0, 16_000.0);
    let sp = gen_spectrogram(&input, 44_100).unwrap();
    assert_eq!(sp.len(), 42);
    for frame in &sp {
        assert_eq!(frame.len(), 1024);
    }
}

#[test]
fn pure_tone_peaks_cluster_at_the_tone() {
    // A 440 Hz tone: the frequency resolution is (44100 / 4) / 1024, about
    // 10.8 Hz, and 440 Hz falls in bin 40-41 of the band [40, 80).  Every
    // peak that band contributes must lie within one resolution step of the
    // tone.
    let input = tone(44_100, 2.0, 440.0, 16_000.0);
    let sp = gen_spectrogram(&input, 44_100).unwrap();
    let peaks = get_peaks(&sp, input.len() as u64, 44_100);
    assert!(!peaks.is_empty());
    let mut in_band = 0;
    for p in &peaks {
        // Band [40, 80) spans 430..861 Hz.
        if p.frequency >= 430 && p.frequency < 861 {
            in_band += 1;
            assert!(
                p.frequency >= 429 && p.frequency <= 452,
                "stray peak at {} Hz",
                p.frequency
            );
        }
    }
    assert!(in_band > 0, "the tone's band produced no peaks");
}

#[test]
fn peaks_of_empty_spectrogram_are_empty() {
    let sp: Vec<Vec<u64>> = Vec::new();
    let peaks = get_peaks(&sp, 0, 44_100);
    assert!(peaks.is_empty());
}
