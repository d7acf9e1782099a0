use lau_plato_nervous::alert_spectral::{dominant_bin, spectrogram_windows};

fn bits(values: &[f64]) -> Vec<u64> {
    values.iter().map(|v| v.to_bits()).collect()
}

#[test]
fn dominant_bin_skips_dc_and_searches_first_half() {
    // bin 0 (DC) is largest but skipped; bin 5 lies past n/2 = 4
    let mags = bits(&[9.0, 0.5, 2.0, 1.0, 0.25, 7.0, 0.0, 0.0]);
    assert_eq!(dominant_bin(&mags), 2);
}

#[test]
fn dominant_bin_last_of_equal_maxima() {
    let mags = bits(&[0.0, 3.0, 1.0, 3.0, 2.0, 0.0, 0.0, 0.0]);
    assert_eq!(dominant_bin(&mags), 3);
    // the two zeros compare equal, so the later one wins
    let zeros = bits(&[1.0, 0.0, -0.0, 0.0, 0.0]);
    assert_eq!(dominant_bin(&zeros), 2);
}

#[test]
fn dominant_bin_without_candidates() {
    assert_eq!(dominant_bin(&bits(&[])), 0);
    assert_eq!(dominant_bin(&bits(&[4.0])), 0);
    // a single candidate is taken without comparison
    assert_eq!(dominant_bin(&bits(&[4.0, f64::NAN])), 1);
    assert_eq!(dominant_bin(&bits(&[4.0, 1.0, 8.0])), 1);
}

#[test]
fn dominant_bin_of_a_periodic_series() {
    // |DFT| of 0, 1, 0, -1, ... (8 samples): all energy at bins 2 and 6
    let samples = [0.0, 1.0, 0.0, -1.0, 0.0, 1.0, 0.0, -1.0];
    let n = samples.len();
    let mags: Vec<f64> = (0..n)
        .map(|k| {
            let (mut re, mut im) = (0.0f64, 0.0f64);
            for (t, x) in samples.iter().enumerate() {
                let angle = -2.0 * std::f64::consts::PI * (k * t) as f64 / n as f64;
                re += x * angle.cos();
                im += x * angle.sin();
            }
            (re * re + im * im).sqrt() / n as f64
        })
        .collect();
    assert_eq!(dominant_bin(&bits(&mags)), 2);
}

#[test]
fn spectrogram_windows_overlap_by_hop() {
    let w = spectrogram_windows(64, 16, 4);
    assert_eq!(w.len(), 13);
    assert_eq!(w[0], (0, 16));
    assert_eq!(w[1], (4, 20));
    assert_eq!(w[12], (48, 64));
}

#[test]
fn spectrogram_windows_short_series_and_uneven_hop() {
    // fewer samples than a window: one window over everything
    assert_eq!(spectrogram_windows(10, 16, 4), vec![(0, 10)]);
    // 20 samples, windows of 8 every 5: starts 0, 5, 10 (15 would overrun)
    assert_eq!(spectrogram_windows(20, 8, 5), vec![(0, 8), (5, 13), (10, 18)]);
    // empty windows
    assert_eq!(spectrogram_windows(3, 0, 2), vec![(0, 0), (2, 2)]);
}
