use audio_match::audio::{downsample, normalize_audio, precondition_samples, NORM_SCALE};
use audio_match::errors::FingerprintError;
use audio_match::fingerprint::{
    fingerprint_from_spectrogram, generate_hashes, AudioFingerprint,
};
use audio_match::matcher::{find_all_matches, find_match, SongEntry};
use audio_match::peaks::{find_spectral_peaks, SpectralPeak, MAX_PEAKS};
use audio_match::similarity::calculate_similarity;
use audio_match::spectrogram::{
    extract_frame, frame_count, Spectrogram, FREQ_BINS, HOP_SIZE, MAG_FLOOR, WINDOW_SIZE,
};

fn fp(hashes: Vec<u32>) -> AudioFingerprint {
    AudioFingerprint { hashes, duration_samples: 44100 }
}

fn entry(id: i64, title: &str, hashes: Vec<u32>) -> SongEntry {
    SongEntry {
        id,
        title: title.to_string(),
        artist: "artist".to_string(),
        fingerprint: fp(hashes),
    }
}

#[test]
fn normalize_peak_reaches_scale() {
    let samples = vec![1000i32, -2000, 500];
    let out = normalize_audio(&samples);
    assert_eq!(out, vec![16384, -32768, 8192]);
    let peak = out.iter().map(|v| (*v as i64).abs()).max().unwrap();
    assert_eq!(peak, NORM_SCALE);
}

#[test]
fn normalize_peak_reaches_scale_positive_peak() {
    let samples = vec![3i32, 30000, 299];
    let out = normalize_audio(&samples);
    let peak = out.iter().map(|v| (*v as i64).abs()).max().unwrap();
    assert_eq!(peak, NORM_SCALE);
}

#[test]
fn normalize_empty_and_silent_unchanged() {
    let empty: Vec<i32> = Vec::new();
    assert_eq!(normalize_audio(&empty), empty);
    let silent = vec![0i32, 0, 0, 0];
    assert_eq!(normalize_audio(&silent), silent);
}

#[test]
fn downsample_identity_at_equal_rates() {
    let samples = vec![5i32, -3, 7, 9, -11, 2];
    assert_eq!(downsample(&samples, 44100, 44100), samples);
    assert_eq!(downsample(&samples, 11025, 44100), samples);
}

#[test]
fn downsample_selects_every_fourth_sample() {
    let samples: Vec<i32> = (0..17).collect();
    let out = downsample(&samples, 44100, 11025);
    assert_eq!(out, vec![0, 4, 8, 12]);
    assert!(out.len() <= samples.len());
}

#[test]
fn downsample_never_grows() {
    for n in 0..40usize {
        let samples: Vec<i32> = (0..n as i32).collect();
        let out = downsample(&samples, 48000, 11025);
        assert!(out.len() <= samples.len());
    }
}

#[test]
fn frame_count_rejects_short_clips() {
    assert_eq!(frame_count(0), Err(FingerprintError::TooShort));
    assert_eq!(frame_count(WINDOW_SIZE - 1), Err(FingerprintError::TooShort));
    assert_eq!(frame_count(WINDOW_SIZE), Ok(1));
    assert_eq!(frame_count(WINDOW_SIZE + HOP_SIZE), Ok(2));
    assert_eq!(frame_count(WINDOW_SIZE + HOP_SIZE - 1), Ok(1));
}

#[test]
fn extract_frame_takes_hop_offset_window() {
    let samples: Vec<i32> = (0..2048).collect();
    let f0 = extract_frame(&samples, 0);
    let f1 = extract_frame(&samples, 1);
    assert_eq!(f0.len(), WINDOW_SIZE);
    assert_eq!(f0[0], 0);
    assert_eq!(f0[1023], 1023);
    assert_eq!(f1[0], HOP_SIZE as i32);
    assert_eq!(f1[1023], (HOP_SIZE + 1023) as i32);
}

#[test]
fn precondition_rejects_empty() {
    let empty: Vec<i32> = Vec::new();
    assert_eq!(precondition_samples(&empty), Err(FingerprintError::EmptyInput));
    let ok = precondition_samples(&vec![10i32; 8]).unwrap();
    assert_eq!(ok.len(), 2);
    assert_eq!(ok[0], NORM_SCALE as i32);
}

#[test]
fn spectrogram_rejects_misshapen_rows() {
    let rows = vec![vec![0u64; FREQ_BINS], vec![0u64; FREQ_BINS - 1]];
    assert!(Spectrogram::from_frames(rows).is_none());
    let rows = vec![vec![0u64; FREQ_BINS], vec![0u64; FREQ_BINS]];
    assert!(Spectrogram::from_frames(rows).is_some());
}

#[test]
fn peaks_require_floor_and_strict_local_maximum() {
    let mut rows = vec![vec![0u64; FREQ_BINS]; 3];
    // a clear peak well above the floor
    rows[1][10] = 5_000_000;
    // below the absolute floor
    rows[1][20] = MAG_FLOOR;
    // a plateau: ties with a neighbor are rejected
    rows[1][30] = 4_000_000;
    rows[1][31] = 4_000_000;
    // an edge cell is never a peak
    rows[1][0] = 9_000_000;
    let spect = Spectrogram::from_frames(rows).unwrap();
    let peaks = find_spectral_peaks(&spect);
    assert_eq!(peaks.len(), 1);
    assert_eq!(peaks[0].freq_bin, 10);
    assert_eq!(peaks[0].time_frame, 1);
    assert_eq!(peaks[0].magnitude, 5_000_000);
}

#[test]
fn peaks_are_capped_and_sorted() {
    let mut rows = vec![vec![0u64; FREQ_BINS]; 5];
    for t in [1usize, 3] {
        for f in (2..510).step_by(2) {
            rows[t][f] = 2_000_000 + (f as u64) + (t as u64);
        }
    }
    let spect = Spectrogram::from_frames(rows).unwrap();
    let peaks = find_spectral_peaks(&spect);
    assert_eq!(peaks.len(), MAX_PEAKS);
    for w in peaks.windows(2) {
        assert!(w[0].magnitude >= w[1].magnitude);
    }
    // only the largest magnitudes are retained
    assert!(peaks[MAX_PEAKS - 1].magnitude >= 2_000_000 + 2);
}

#[test]
fn error_messages_are_stable() {
    assert_eq!(FingerprintError::EmptyInput.message(), "empty audio samples");
    assert_eq!(FingerprintError::TooShort.message(), "audio clip too short for analysis");
}

#[test]
fn fingerprint_records_duration_and_pairs_peaks() {
    let mut rows = vec![vec![0u64; FREQ_BINS]; 3];
    rows[1][10] = 5_000_000;
    rows[1][40] = 4_000_000;
    let spect = Spectrogram::from_frames(rows).unwrap();
    let f = fingerprint_from_spectrogram(&spect, 441_000);
    assert_eq!(f.duration_samples, 441_000);
    // two peaks in the same frame: one pair, time gap zero
    assert_eq!(f.hashes, vec![(10u32 << 16) | (40 << 8)]);
    assert!(f.hashes.len() <= 1000);
}

#[test]
fn hashes_pack_pairs_within_window() {
    let peaks = vec![
        SpectralPeak { freq_bin: 100, time_frame: 5, magnitude: 10 },
        SpectralPeak { freq_bin: 50, time_frame: 8, magnitude: 9 },
        SpectralPeak { freq_bin: 300, time_frame: 5, magnitude: 8 },
        SpectralPeak { freq_bin: 40, time_frame: 30, magnitude: 7 },
    ];
    let hashes = generate_hashes(&peaks);
    // (100, 5)-(50, 8): dt = 3
    let h01 = (100u32 << 16) | (50 << 8) | 3;
    // (100, 5)-(300, 5): dt = 0, low-slot frequency truncated to 8 bits
    let h02 = (100u32 << 16) | ((300 & 0xff) << 8);
    // all other pairs violate the time window (dt negative or over 10)
    assert_eq!(hashes, vec![h01, h02]);
}

#[test]
fn hashes_limit_partners_to_fanout() {
    let peaks: Vec<SpectralPeak> = (0..8)
        .map(|i| SpectralPeak { freq_bin: 10 + i, time_frame: 4, magnitude: 100 - i as u64 })
        .collect();
    let hashes = generate_hashes(&peaks);
    // anchors 0,1,2 pair with 5 partners; 3 with 4; ... 7 with none
    assert_eq!(hashes.len(), 5 + 5 + 5 + 4 + 3 + 2 + 1);
}

#[test]
fn similarity_is_jaccard_over_sets() {
    let a = fp(vec![1, 2, 3]);
    let b = fp(vec![2, 3, 4]);
    let s = calculate_similarity(&a, &b);
    assert_eq!((s.shared, s.total), (2, 4));
    // duplicates collapse
    let c = fp(vec![1, 1, 1, 2]);
    let d = fp(vec![2, 2, 1]);
    let s = calculate_similarity(&c, &d);
    assert_eq!((s.shared, s.total), (2, 2));
}

#[test]
fn similarity_bounds_and_self_similarity() {
    let a = fp(vec![7, 9, 9, 11]);
    let s = calculate_similarity(&a, &a);
    assert_eq!(s.shared, s.total);
    assert!(s.total >= 1);
    let b = fp(vec![7, 100]);
    let s = calculate_similarity(&a, &b);
    assert!(s.shared <= s.total);
}

#[test]
fn similarity_is_symmetric() {
    let a = fp(vec![1, 5, 9]);
    let b = fp(vec![5, 9, 13, 17]);
    let s1 = calculate_similarity(&a, &b);
    let s2 = calculate_similarity(&b, &a);
    assert_eq!((s1.shared, s1.total), (s2.shared, s2.total));
}

#[test]
fn similarity_of_disjoint_sets_is_zero() {
    let a = fp(vec![1, 2, 3]);
    let b = fp(vec![4, 5, 6]);
    let s = calculate_similarity(&a, &b);
    assert_eq!(s.shared, 0);
}

#[test]
fn similarity_of_empty_fingerprint_is_zero() {
    let a = fp(Vec::new());
    let b = fp(vec![1, 2, 3]);
    let s = calculate_similarity(&a, &b);
    assert_eq!((s.shared, s.total), (0, 1));
}

#[test]
fn find_match_enforces_strict_threshold() {
    let query = fp(vec![1, 2, 3, 4, 5, 6]);
    // intersection 3, union 10: a score of exactly 0.3 must not match
    let entries = vec![entry(1, "a", vec![1, 2, 3, 7, 8, 9, 10])];
    assert!(find_match(&query, &entries).is_none());
    // intersection 3, union 9: above the threshold
    let entries = vec![entry(1, "a", vec![1, 2, 3, 7, 8, 9])];
    let m = find_match(&query, &entries).unwrap();
    assert_eq!(m.index, 0);
    assert_eq!((m.similarity.shared, m.similarity.total), (3, 9));
}

#[test]
fn find_match_on_empty_catalog_is_none() {
    let query = fp(vec![1, 2, 3]);
    let entries: Vec<SongEntry> = Vec::new();
    assert!(find_match(&query, &entries).is_none());
}

#[test]
fn find_match_returns_best_and_earliest_tie() {
    let query = fp(vec![1, 2, 3, 4]);
    let entries = vec![
        entry(1, "half", vec![1, 2, 5, 6]),
        entry(2, "full", vec![1, 2, 3, 4]),
        entry(3, "full-too", vec![1, 2, 3, 4]),
    ];
    let m = find_match(&query, &entries).unwrap();
    assert_eq!(m.index, 1);
    assert_eq!((m.similarity.shared, m.similarity.total), (4, 4));
    // a tie at the best score keeps the earliest entry
    let entries = vec![entry(1, "a", vec![1, 2, 3, 4]), entry(2, "b", vec![1, 2, 3, 4])];
    let m = find_match(&query, &entries).unwrap();
    assert_eq!(m.index, 0);
}

#[test]
fn find_all_matches_filters_and_ranks() {
    let query = fp(vec![1, 2, 3, 4]);
    let entries = vec![
        entry(1, "middling", vec![1, 2, 5, 6]),
        entry(2, "exact", vec![1, 2, 3, 4]),
        entry(3, "weak", vec![1, 9, 10, 11, 12, 13, 14]),
        entry(4, "good", vec![1, 2, 3, 9]),
    ];
    let all = find_all_matches(&query, &entries);
    let indices: Vec<usize> = all.iter().map(|m| m.index).collect();
    // entry 2 (score 1) first, then entry 3 (3/5), then entry 0 (2/6);
    // entry 2 of the scan (score 1/10) is below the threshold
    assert_eq!(indices, vec![1, 3, 0]);
    for w in all.windows(2) {
        let a = &w[0].similarity;
        let b = &w[1].similarity;
        assert!((a.shared as u64) * (b.total as u64) >= (b.shared as u64) * (a.total as u64));
    }
}

#[test]
fn find_all_matches_keeps_scan_order_on_ties() {
    let query = fp(vec![1, 2]);
    let entries = vec![
        entry(1, "a", vec![1, 2]),
        entry(2, "b", vec![1, 2]),
        entry(3, "c", vec![1, 2]),
    ];
    let all = find_all_matches(&query, &entries);
    let indices: Vec<usize> = all.iter().map(|m| m.index).collect();
    assert_eq!(indices, vec![0, 1, 2]);
}
