use recognizer::assoc::OrderedMap;
use recognizer::catalog::Catalog;
use recognizer::declarations::{MATCH_SCORE_THRESHOLD, NO_SONG_MATCH_ERROR};
use recognizer::fingerprint::{fingerprint_audio, KeyAudioPoint};
use recognizer::shazam::{
    analyze_relative_timing, find_matches_from_fingerprint, fingerprint_to_query, gather_matches,
    Match,
};
use recognizer::wav::WavInfo;

fn sine(sample_rate: u32, samples: usize, freq: f64, amplitude: f64) -> Vec<i16> {
    (0..samples)
        .map(|i| {
            let t = i as f64 / sample_rate as f64;
            (amplitude * (2.0 * std::f64::consts::PI * freq * t).sin()) as i16
        })
        .collect()
}

/// A tone gliding slowly through the given band: a recording centered on
/// one pitch, with enough temporal structure for distinct fingerprints (a
/// mathematically pure tone repeats the same handful of hashes forever).
fn glide(sample_rate: u32, samples: usize, f_start: f64, f_end: f64) -> Vec<i16> {
    let mut phase: f64 = 0.0;
    (0..samples)
        .map(|i| {
            let frac = i as f64 / samples as f64;
            let f = f_start + (f_end - f_start) * frac;
            phase += 2.0 * std::f64::consts::PI * f / sample_rate as f64;
            (16_000.0 * phase.sin()) as i16
        })
        .collect()
}

/// A sequence of one-second tone segments: enough temporal structure to
/// localize a snippet.
fn melody(sample_rate: u32, freqs: &[f64]) -> Vec<i16> {
    let mut out: Vec<i16> = Vec::new();
    for f in freqs {
        out.extend(sine(sample_rate, sample_rate as usize, *f, 16_000.0));
    }
    out
}

fn mono_wav(sample_rate: u32, samples: Vec<i16>) -> WavInfo {
    WavInfo {
        sample_rate,
        channels: 1,
        total_frames: samples.len() as u32,
        left_channel_samples: samples,
        right_channel_samples: Vec::new(),
    }
}

fn enroll(catalog: &mut Catalog, title: &str, artist: &str, wav: &WavInfo) -> u32 {
    let id = catalog
        .store_song(&title.to_string(), &artist.to_string(), None)
        .unwrap();
    let fp = fingerprint_audio(wav, id).unwrap();
    catalog.store_fingerprints(&fp).unwrap();
    id
}

fn identify(catalog: &Catalog, wav: &WavInfo) -> Vec<Match> {
    let fp = fingerprint_audio(wav, 0).unwrap();
    let query = fingerprint_to_query(&fp);
    find_matches_from_fingerprint(catalog, &query).unwrap()
}

/// The best offset bin of the top candidate, for localization checks.
fn best_bin_of(catalog: &Catalog, wav: &WavInfo, song_id: u32) -> i64 {
    let fp = fingerprint_audio(wav, 0).unwrap();
    let query = fingerprint_to_query(&fp);
    let buckets = gather_matches(catalog, &query);
    let scores = analyze_relative_timing(&buckets);
    scores
        .entries
        .iter()
        .find(|(s, _)| *s == song_id)
        .expect("song not among candidates")
        .1
        .0
}

#[test]
fn self_recognition_tops_the_ranking() {
    // Enroll a 10 s recording around 440 Hz from "title_artist.wav" and
    // identify the same audio: the enrolled song comes first with a
    // confident score.
    let sr = 44_100;
    let wav = mono_wav(sr, glide(sr, sr as usize * 10, 420.0, 460.0));
    let mut catalog = Catalog::new();
    let id = enroll(&mut catalog, "title", "artist", &wav);
    let matches = identify(&catalog, &wav);
    assert!(!matches.is_empty());
    assert_eq!(matches[0].song_id, id);
    assert_eq!(matches[0].song_title, "title");
    assert_eq!(matches[0].song_artist, "artist");
    assert!(
        matches[0].score > MATCH_SCORE_THRESHOLD,
        "self-match score was {}",
        matches[0].score
    );
}

#[test]
fn pipeline_is_deterministic() {
    // Two runs over the same bytes produce identical fingerprints and
    // identical ranked output.
    let sr = 22_050;
    let samples = melody(sr, &[300.0, 520.0, 760.0]);
    let wav = mono_wav(sr, samples.clone());
    let wav2 = mono_wav(sr, samples);
    let fp1 = fingerprint_audio(&wav, 9).unwrap();
    let fp2 = fingerprint_audio(&wav2, 9).unwrap();
    assert_eq!(fp1.entries, fp2.entries);

    let mut catalog = Catalog::new();
    let id = enroll(&mut catalog, "a", "b", &wav);
    let m1 = identify(&catalog, &wav);
    let m2 = identify(&catalog, &wav2);
    assert_eq!(m1.len(), m2.len());
    for (x, y) in m1.iter().zip(m2.iter()) {
        assert_eq!(x.song_id, y.song_id);
        assert_eq!(x.score, y.score);
    }
    assert_eq!(m1[0].song_id, id);
}

#[test]
fn snippet_of_tail_matches_with_matching_offset() {
    // Identify the last 3 s of the enrolled 10 s recording: same top match,
    // and the offset histogram's argmax sits near 7000 ms.
    let sr = 44_100;
    let full = glide(sr, sr as usize * 10, 420.0, 460.0);
    let tail: Vec<i16> = full[sr as usize * 7..].to_vec();
    let wav = mono_wav(sr, full);
    let mut catalog = Catalog::new();
    let id = enroll(&mut catalog, "title", "artist", &wav);
    let snippet = mono_wav(sr, tail);
    let matches = identify(&catalog, &snippet);
    assert!(!matches.is_empty());
    assert_eq!(matches[0].song_id, id);
    let bin = best_bin_of(&catalog, &snippet, id);
    assert!(
        (69..=71).contains(&bin),
        "offset bin {bin} is not near 7000 ms"
    );
}

#[test]
fn snippet_of_middle_is_localized() {
    // Enroll an 8 s melody; query its middle 5 s (from 1.5 s in).  The
    // melody comes first and the argmax offset bin sits near 1500 ms.
    let sr = 22_050;
    let full = melody(sr, &[300.0, 430.0, 560.0, 690.0, 820.0, 950.0, 1080.0, 1210.0]);
    let start = (sr as usize * 3) / 2;
    let mid: Vec<i16> = full[start..start + sr as usize * 5].to_vec();
    let wav = mono_wav(sr, full);
    let mut catalog = Catalog::new();
    let id = enroll(&mut catalog, "melody", "nobody", &wav);
    let other = mono_wav(sr, melody(sr, &[2000.0, 2200.0, 2400.0]));
    enroll(&mut catalog, "other", "nobody", &other);
    let snippet = mono_wav(sr, mid);
    let matches = identify(&catalog, &snippet);
    assert!(!matches.is_empty());
    assert_eq!(matches[0].song_id, id);
    let bin = best_bin_of(&catalog, &snippet, id);
    assert!(
        (14..=16).contains(&bin),
        "offset bin {bin} is not near 1500 ms"
    );
}

#[test]
fn distinct_recording_ranks_first() {
    // Two distinct recordings; identifying the first ranks it strictly
    // above the second.
    let sr = 22_050;
    let one = mono_wav(sr, melody(sr, &[330.0, 550.0, 770.0, 990.0]));
    let two = mono_wav(sr, melody(sr, &[410.0, 630.0, 850.0, 1070.0]));
    let mut catalog = Catalog::new();
    let id1 = enroll(&mut catalog, "one", "x", &one);
    let id2 = enroll(&mut catalog, "two", "y", &two);
    let matches = identify(&catalog, &one);
    assert!(!matches.is_empty());
    assert_eq!(matches[0].song_id, id1);
    for m in &matches {
        if m.song_id == id2 {
            assert!(m.score < matches[0].score);
        }
    }
}

#[test]
fn unenrolled_recording_finds_no_confident_match() {
    // A recording the catalog has never seen: either no hash overlap at all
    // or a best score below the threshold.
    let sr = 22_050;
    let one = mono_wav(sr, melody(sr, &[330.0, 550.0, 770.0]));
    let two = mono_wav(sr, melody(sr, &[410.0, 630.0, 850.0]));
    let mut catalog = Catalog::new();
    enroll(&mut catalog, "one", "x", &one);
    enroll(&mut catalog, "two", "y", &two);
    let stranger = mono_wav(sr, melody(sr, &[1500.0, 1700.0, 1900.0]));
    let matches = identify(&catalog, &stranger);
    assert!(matches.is_empty() || matches[0].score < MATCH_SCORE_THRESHOLD);
}

#[test]
fn white_noise_is_rejected() {
    // Deterministic pseudo-noise against two enrolled songs: no score
    // reaches the threshold.
    let sr = 22_050;
    let one = mono_wav(sr, melody(sr, &[330.0, 550.0, 770.0]));
    let two = mono_wav(sr, melody(sr, &[410.0, 630.0, 850.0]));
    let mut catalog = Catalog::new();
    enroll(&mut catalog, "one", "x", &one);
    enroll(&mut catalog, "two", "y", &two);
    let mut state: u64 = 0x9E37_79B9_7F4A_7C15;
    let noise: Vec<i16> = (0..sr as usize * 3)
        .map(|_| {
            state = state
                .wrapping_mul(6364136223846793005)
                .wrapping_add(1442695040888963407);
            (state >> 48) as i16
        })
        .collect();
    let matches = identify(&catalog, &mono_wav(sr, noise));
    for m in &matches {
        assert!(
            m.score < MATCH_SCORE_THRESHOLD,
            "noise scored {} against {}",
            m.score,
            m.song_title
        );
    }
}

#[test]
fn stereo_channels_share_one_song_id() {
    // A stereo recording's two channels are fingerprinted independently and
    // merged under one song id; a mono query of the left channel matches.
    let sr = 22_050;
    let left = melody(sr, &[330.0, 550.0, 770.0]);
    let right = melody(sr, &[410.0, 630.0, 850.0]);
    let stereo = WavInfo {
        sample_rate: sr,
        channels: 2,
        total_frames: left.len() as u32,
        left_channel_samples: left.clone(),
        right_channel_samples: right,
    };
    let mut catalog = Catalog::new();
    let id = enroll(&mut catalog, "both", "z", &stereo);
    let matches = identify(&catalog, &mono_wav(sr, left));
    assert!(!matches.is_empty());
    assert_eq!(matches[0].song_id, id);
}

#[test]
fn catalog_lookup_errors_and_updates() {
    let mut catalog = Catalog::new();
    match catalog.get_song_by_id(1) {
        Err(code) => assert_eq!(code, NO_SONG_MATCH_ERROR),
        Ok(_) => panic!("empty catalog returned a song"),
    }
    let id = catalog
        .store_song(&"t".to_string(), &"a".to_string(), None)
        .unwrap();
    assert_eq!(id, 1);
    let song = catalog.get_song_by_id(1).unwrap();
    assert_eq!(song.title, "t");
    assert_eq!(song.artist, "a");
    assert_eq!(song.song_key, "t---a");
    assert_eq!(song.spotify_uri, None);
    match catalog.get_song_by_id(2) {
        Err(code) => assert_eq!(code, NO_SONG_MATCH_ERROR),
        Ok(_) => panic!("unknown id returned a song"),
    }
    catalog
        .update_song_uri(&"t".to_string(), &"a".to_string(), "uri:1".to_string())
        .unwrap();
    let song = catalog.get_song_by_id(1).unwrap();
    assert_eq!(song.spotify_uri, Some("uri:1".to_string()));
}

#[test]
fn posting_insertion_is_idempotent() {
    let mut catalog = Catalog::new();
    catalog
        .store_song(&"t".to_string(), &"a".to_string(), None)
        .unwrap();
    let mut fp: OrderedMap<KeyAudioPoint> = OrderedMap::new();
    fp.insert(
        42,
        KeyAudioPoint {
            anchor_time_ms: 100,
            song_id: 1,
        },
    );
    catalog.store_fingerprints(&fp).unwrap();
    catalog.store_fingerprints(&fp).unwrap();
    let found = catalog.get_key_audio_points(&vec![42, 43]);
    assert_eq!(found.entries.len(), 2);
    assert_eq!(found.entries[0].0, 42);
    assert_eq!(found.entries[0].1.len(), 1);
    assert_eq!(found.entries[0].1[0].anchor_time_ms, 100);
    assert_eq!(found.entries[0].1[0].song_id, 1);
    // The hash absent from the index gets an empty list.
    assert_eq!(found.entries[1].0, 43);
    assert!(found.entries[1].1.is_empty());
}
