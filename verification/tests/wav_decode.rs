use recognizer::declarations::INCOMPATIBLE_FILE_ERROR;
use recognizer::wav::{get_wav_info, WavInfo};

fn expect_incompatible(r: Result<WavInfo, u8>) {
    match r {
        Ok(_) => panic!("expected a decode error"),
        Err(code) => assert_eq!(code, INCOMPATIBLE_FILE_ERROR),
    }
}

/// Builds a minimal RIFF/WAVE file around the given interleaved samples.
fn wav_bytes(sample_rate: u32, channels: u16, bits: u16, samples: &[i16]) -> Vec<u8> {
    let data_len = (samples.len() * 2) as u32;
    let mut b: Vec<u8> = Vec::new();
    b.extend_from_slice(b"RIFF");
    b.extend_from_slice(&(36 + data_len).to_le_bytes());
    b.extend_from_slice(b"WAVE");
    b.extend_from_slice(b"fmt ");
    b.extend_from_slice(&16u32.to_le_bytes());
    b.extend_from_slice(&1u16.to_le_bytes()); // integer PCM
    b.extend_from_slice(&channels.to_le_bytes());
    b.extend_from_slice(&sample_rate.to_le_bytes());
    let byte_rate = sample_rate * channels as u32 * (bits as u32 / 8);
    b.extend_from_slice(&byte_rate.to_le_bytes());
    b.extend_from_slice(&(channels * (bits / 8)).to_le_bytes()); // block align
    b.extend_from_slice(&bits.to_le_bytes());
    b.extend_from_slice(b"data");
    b.extend_from_slice(&data_len.to_le_bytes());
    for s in samples {
        b.extend_from_slice(&s.to_le_bytes());
    }
    b
}

#[test]
fn decodes_mono_wav() {
    let samples: Vec<i16> = vec![0, 100, -100, 32767, -32768];
    let bytes = wav_bytes(44_100, 1, 16, &samples);
    let w = get_wav_info(&bytes).unwrap();
    assert_eq!(w.sample_rate, 44_100);
    assert_eq!(w.channels, 1);
    assert_eq!(w.total_frames, 5);
    assert_eq!(w.left_channel_samples, samples);
    assert!(w.right_channel_samples.is_empty());
}

#[test]
fn decodes_stereo_wav_by_deinterleaving() {
    // Even positions go left, odd positions right.
    let samples: Vec<i16> = vec![1, 2, 3, 4, 5, 6];
    let bytes = wav_bytes(22_050, 2, 16, &samples);
    let w = get_wav_info(&bytes).unwrap();
    assert_eq!(w.channels, 2);
    assert_eq!(w.total_frames, 3);
    assert_eq!(w.left_channel_samples, vec![1, 3, 5]);
    assert_eq!(w.right_channel_samples, vec![2, 4, 6]);
}

#[test]
fn rejects_8_bit_wav() {
    // 8 bits per sample is not 16-bit PCM.
    let bytes = wav_bytes(44_100, 1, 8, &[0, 0]);
    expect_incompatible(get_wav_info(&bytes));
}

#[test]
fn rejects_too_many_channels() {
    let bytes = wav_bytes(44_100, 3, 16, &[0, 0, 0]);
    expect_incompatible(get_wav_info(&bytes));
}

#[test]
fn rejects_non_riff_bytes() {
    let bytes = vec![0u8; 64];
    expect_incompatible(get_wav_info(&bytes));
    let bytes = b"not a wav file at all".to_vec();
    expect_incompatible(get_wav_info(&bytes));
    let bytes: Vec<u8> = Vec::new();
    expect_incompatible(get_wav_info(&bytes));
}

#[test]
fn rejects_truncated_data_chunk() {
    let mut bytes = wav_bytes(44_100, 1, 16, &[1, 2, 3, 4]);
    // Claim more data than the buffer holds.
    let n = bytes.len();
    bytes[n - 9] = 0xFF;
    expect_incompatible(get_wav_info(&bytes));
}

#[test]
fn skips_unknown_chunks_before_data() {
    // A LIST chunk of odd size sits between fmt and data; the pad byte must
    // be skipped.
    let samples: Vec<i16> = vec![7, -7];
    let tail = wav_bytes(8_000, 1, 16, &samples);
    let mut b: Vec<u8> = Vec::new();
    b.extend_from_slice(b"RIFF");
    b.extend_from_slice(&0u32.to_le_bytes()); // outer size is not checked
    b.extend_from_slice(b"WAVE");
    b.extend_from_slice(&tail[12..36]); // fmt chunk
    b.extend_from_slice(b"LIST");
    b.extend_from_slice(&3u32.to_le_bytes());
    b.extend_from_slice(&[1, 2, 3, 0]); // 3 bytes plus pad
    b.extend_from_slice(&tail[36..]); // data chunk
    let w = get_wav_info(&b).unwrap();
    assert_eq!(w.left_channel_samples, samples);
}
