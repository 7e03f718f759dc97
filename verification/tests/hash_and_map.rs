use recognizer::assoc::OrderedMap;
use recognizer::fingerprint::{gen_fingerprints, gen_hash, KeyAudioPoint};
use recognizer::spectrogram::Peak;

#[test]
fn hash_layout_packs_three_fields() {
    // 320 Hz quantizes to 32, 450 Hz to 45, and the 250 ms delta fills the
    // low 14 bits: (32 << 23) | (45 << 14) | 250.
    let a = Peak {
        frequency: 320,
        time_ms: 1000,
    };
    let b = Peak {
        frequency: 450,
        time_ms: 1250,
    };
    assert_eq!(gen_hash(&a, &b), 269_172_986);
}

#[test]
fn hash_delta_wraps_at_14_bits() {
    // A delta of exactly 2^14 ms wraps to a stored delta of 0.
    let a = Peak {
        frequency: 0,
        time_ms: 0,
    };
    let b = Peak {
        frequency: 0,
        time_ms: 16_384,
    };
    assert_eq!(gen_hash(&a, &b), 0);
    let c = Peak {
        frequency: 0,
        time_ms: 16_383,
    };
    assert_eq!(gen_hash(&a, &c), 16_383);
}

#[test]
fn hash_masks_frequencies_to_9_bits() {
    // 5130 Hz quantizes to 513, which is 1 after the 9-bit mask.
    let a = Peak {
        frequency: 5130,
        time_ms: 0,
    };
    let b = Peak {
        frequency: 10,
        time_ms: 0,
    };
    assert_eq!(gen_hash(&a, &b), (1 << 23) | (1 << 14));
}

#[test]
fn fingerprints_pair_each_anchor_with_following_peaks() {
    // Three peaks with distinct frequencies produce one hash per pair:
    // (0,1), (0,2), (1,2).
    let peaks = vec![
        Peak {
            frequency: 100,
            time_ms: 0,
        },
        Peak {
            frequency: 200,
            time_ms: 100,
        },
        Peak {
            frequency: 300,
            time_ms: 200,
        },
    ];
    let fp = gen_fingerprints(&peaks, 7);
    assert_eq!(fp.entries.len(), 3);
    let expected = vec![
        (gen_hash(&peaks[0], &peaks[1]), 0),
        (gen_hash(&peaks[0], &peaks[2]), 0),
        (gen_hash(&peaks[1], &peaks[2]), 100),
    ];
    for (hash, anchor_ms) in expected {
        let entry = fp
            .entries
            .iter()
            .find(|(h, _)| *h == hash)
            .expect("hash missing from fingerprint map");
        assert_eq!(entry.1.anchor_time_ms, anchor_ms);
        assert_eq!(entry.1.song_id, 7);
    }
}

#[test]
fn fingerprints_keep_latest_posting_per_hash() {
    // The pair (p2, p3) repeats the frequencies and delta of (p0, p1), so
    // both hash alike and the later anchor time wins.
    let peaks = vec![
        Peak {
            frequency: 100,
            time_ms: 0,
        },
        Peak {
            frequency: 200,
            time_ms: 100,
        },
        Peak {
            frequency: 100,
            time_ms: 16_384,
        },
        Peak {
            frequency: 200,
            time_ms: 16_484,
        },
    ];
    let h = gen_hash(&peaks[0], &peaks[1]);
    assert_eq!(h, gen_hash(&peaks[2], &peaks[3]));
    let fp = gen_fingerprints(&peaks, 1);
    let entry = fp.entries.iter().find(|(k, _)| *k == h).unwrap();
    assert_eq!(entry.1.anchor_time_ms, 16_384);
}

#[test]
fn ordered_map_insert_replaces_in_place() {
    let mut m: OrderedMap<u32> = OrderedMap::new();
    m.insert(5, 50);
    m.insert(9, 90);
    m.insert(5, 55);
    assert_eq!(m.entries.len(), 2);
    assert_eq!(m.entries[0], (5, 55));
    assert_eq!(m.entries[1], (9, 90));
    assert_eq!(m.index_of(5), Some(0));
    assert_eq!(m.index_of(9), Some(1));
    assert_eq!(m.index_of(7), None);
}

#[test]
fn ordered_map_keeps_insertion_order() {
    let mut m: OrderedMap<KeyAudioPoint> = OrderedMap::new();
    for k in [3u32, 1, 2] {
        m.insert(
            k,
            KeyAudioPoint {
                anchor_time_ms: k as i32,
                song_id: 1,
            },
        );
    }
    let keys: Vec<u32> = m.entries.iter().map(|e| e.0).collect();
    assert_eq!(keys, vec![3, 1, 2]);
}
