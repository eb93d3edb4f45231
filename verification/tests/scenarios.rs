use audio_match::audio::precondition_samples;
use audio_match::errors::FingerprintError;
use audio_match::fingerprint::{fingerprint_from_spectrogram, AudioFingerprint};
use audio_match::matcher::{find_all_matches, find_match, SongEntry};
use audio_match::spectrogram::{
    extract_frame, frame_count, Spectrogram, FREQ_BINS, MAG_SCALE, WINDOW_SIZE,
};
use rustfft::num_complex::Complex;
use rustfft::FftPlanner;

/// Run the full pipeline a server would run on decoded float samples:
/// quantize to fixed point, precondition, window + transform each frame,
/// and fingerprint the magnitude spectrogram.
fn fingerprint_of(samples: &[f32]) -> Result<AudioFingerprint, FingerprintError> {
    let ints: Vec<i32> = samples
        .iter()
        .map(|&s| {
            let v = (s as f64 * 32768.0).round();
            v.max(-2147483648.0).min(2147483647.0) as i32
        })
        .collect();
    let pre = precondition_samples(&ints)?;
    let nframes = frame_count(pre.len())?;
    let mut planner = FftPlanner::<f64>::new();
    let fft = planner.plan_fft_forward(WINDOW_SIZE);
    let mut rows: Vec<Vec<u64>> = Vec::new();
    for k in 0..nframes {
        let frame = extract_frame(&pre, k);
        let mut buf: Vec<Complex<f64>> = frame
            .iter()
            .enumerate()
            .map(|(i, &s)| {
                let phase = 2.0 * std::f64::consts::PI * i as f64 / (WINDOW_SIZE - 1) as f64;
                let w = 0.5 * (1.0 - phase.cos());
                Complex::new((s as f64 / 32768.0) * w, 0.0)
            })
            .collect();
        fft.process(&mut buf);
        let row: Vec<u64> = buf
            .iter()
            .take(FREQ_BINS)
            .map(|c| (c.norm() * MAG_SCALE as f64).round() as u64)
            .collect();
        rows.push(row);
    }
    let spect = Spectrogram::from_frames(rows).expect("all rows have FREQ_BINS magnitudes");
    Ok(fingerprint_from_spectrogram(&spect, samples.len() as u64))
}

/// A deterministic clip: a little melody of rich overlapping tones with
/// a slow tremolo, so the spectrogram holds many strong, time-varying
/// peaks at distinct magnitudes.
fn clip(notes: &[f64], seconds: f64) -> Vec<f32> {
    let partials: [(f64, f64); 8] = [
        (1.0, 0.50),
        (1.5, 0.35),
        (2.0, 0.25),
        (2.5, 0.18),
        (3.0, 0.14),
        (4.0, 0.10),
        (5.0, 0.08),
        (6.0, 0.06),
    ];
    let n = (seconds * 44100.0) as usize;
    let mut out = Vec::with_capacity(n);
    for i in 0..n {
        let t = i as f64 / 44100.0;
        let seg = ((t * 2.0) as usize) % notes.len();
        let f0 = notes[seg];
        let trem = 0.65 + 0.35 * (2.0 * std::f64::consts::PI * 3.0 * t).sin();
        // a slow decay keeps every spectral peak at its own magnitude
        // and lets louder peaks precede quieter ones in time
        let env = 1.0 - 0.72 * t / seconds;
        let mut s = 0.0;
        for &(ratio, amp) in &partials {
            s += amp * (2.0 * std::f64::consts::PI * f0 * ratio * t).sin();
        }
        out.push((s * trem * env * 0.5) as f32);
    }
    out
}

/// A small deterministic generator of roughly Gaussian noise with unit
/// variance.
fn noise(len: usize, seed: u64) -> Vec<f64> {
    let mut state = seed;
    let mut next = move || {
        state = state.wrapping_mul(6364136223846793005).wrapping_add(1442695040888963407);
        ((state >> 11) as f64 / (1u64 << 53) as f64) * 2.0 - 1.0
    };
    (0..len).map(|_| next() + next() + next()).collect()
}

fn entry_for(id: i64, title: &str, artist: &str, f: &AudioFingerprint) -> SongEntry {
    SongEntry {
        id,
        title: title.to_string(),
        artist: artist.to_string(),
        fingerprint: AudioFingerprint {
            hashes: f.hashes.clone(),
            duration_samples: f.duration_samples,
        },
    }
}

#[test]
fn round_trip_identification() {
    let w1 = clip(&[440.0, 523.25, 659.25, 587.33], 10.0);
    let f1 = fingerprint_of(&w1).unwrap();
    assert!(f1.hashes.len() > 0);
    let entries = vec![entry_for(1, "T", "A", &f1)];
    let q = fingerprint_of(&w1).unwrap();
    let m = find_match(&q, &entries).unwrap();
    assert_eq!(m.index, 0);
    assert_eq!(entries[m.index].title, "T");
    assert_eq!(entries[m.index].artist, "A");
    // identical bytes give identical hashes: confidence is exactly 1
    assert!(m.similarity.shared * 100 >= m.similarity.total * 95);
}

#[test]
fn noise_robust_identification() {
    let w1 = clip(&[440.0, 523.25, 659.25, 587.33], 10.0);
    let f1 = fingerprint_of(&w1).unwrap();
    let entries = vec![entry_for(1, "T", "A", &f1)];

    // additive noise at 20 dB signal-to-noise ratio
    let signal_power: f64 =
        w1.iter().map(|&s| (s as f64) * (s as f64)).sum::<f64>() / w1.len() as f64;
    let noise_scale = (signal_power / 100.0).sqrt();
    let nz = noise(w1.len(), 12345);
    let noisy: Vec<f32> =
        w1.iter().zip(nz.iter()).map(|(&s, &n)| s + (n * noise_scale) as f32).collect();

    let q = fingerprint_of(&noisy).unwrap();
    let m = find_match(&q, &entries).expect("the noisy clip still matches");
    assert_eq!(m.index, 0);
    // confidence strictly above one half
    assert!(m.similarity.shared * 2 > m.similarity.total);
}

#[test]
fn unrelated_clip_does_not_match() {
    let w1 = clip(&[440.0, 523.25, 659.25, 587.33], 10.0);
    let w2 = clip(&[311.13, 370.0, 415.3, 493.88], 10.0);
    let f1 = fingerprint_of(&w1).unwrap();
    let entries = vec![entry_for(1, "T", "A", &f1)];
    let q = fingerprint_of(&w2).unwrap();
    assert!(find_match(&q, &entries).is_none());
}

#[test]
fn ranked_recall_puts_the_queried_clip_first() {
    let w1 = clip(&[440.0, 523.25, 659.25, 587.33], 10.0);
    let w2 = clip(&[311.13, 370.0, 415.3, 493.88], 10.0);
    let w3 = clip(&[220.0, 277.18, 329.63, 392.0], 10.0);
    let f1 = fingerprint_of(&w1).unwrap();
    let f2 = fingerprint_of(&w2).unwrap();
    let f3 = fingerprint_of(&w3).unwrap();
    let entries = vec![
        entry_for(1, "one", "A", &f1),
        entry_for(2, "two", "A", &f2),
        entry_for(3, "three", "A", &f3),
    ];
    let q = fingerprint_of(&w2).unwrap();
    let all = find_all_matches(&q, &entries);
    assert!(all.len() >= 1);
    assert_eq!(all[0].index, 1);
    for w in all.windows(2) {
        let a = &w[0].similarity;
        let b = &w[1].similarity;
        assert!((a.shared as u64) * (b.total as u64) >= (b.shared as u64) * (a.total as u64));
    }
    for m in &all {
        // every returned score is strictly above the threshold
        assert!(10 * m.similarity.shared > 3 * m.similarity.total);
    }
}

#[test]
fn short_clip_is_rejected_as_too_short() {
    // 50 ms at the source rate: too short for even one analysis frame
    let w = clip(&[440.0], 0.05);
    match fingerprint_of(&w) {
        Err(e) => assert_eq!(e, FingerprintError::TooShort),
        Ok(_) => panic!("a 50 ms clip must be rejected"),
    }
}

#[test]
fn empty_catalog_query_matches_nothing() {
    let w1 = clip(&[440.0, 523.25], 10.0);
    let q = fingerprint_of(&w1).unwrap();
    let entries: Vec<SongEntry> = Vec::new();
    assert!(find_match(&q, &entries).is_none());
    assert!(find_all_matches(&q, &entries).is_empty());
}
