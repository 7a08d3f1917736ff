use zygdrum::capture::{
    band_peaks, capture_envelope, capture_spectrogram, envelope, envelope_step, spectrogram,
    spectrogram_span, spectrum_column, Optics, BINS, FFT,
};
use zygdrum::engine::{block_len, fill_frame, nine, Engine, BLOCK};
use zygdrum::fft::{bit_reverse, fft_inplace};
use zygdrum::single::{clamp_unit, less, peak, trough};

const SAMPLES: [f32; 14] = [
    0.0,
    -0.0,
    1.0,
    -1.0,
    0.5,
    1.5,
    -1e-40,
    1e-40,
    f32::MAX,
    f32::MIN,
    f32::INFINITY,
    f32::NEG_INFINITY,
    f32::NAN,
    f32::MIN_POSITIVE,
];

#[test]
fn numbers_compare_by_their_bits() {
    for a in SAMPLES {
        for b in SAMPLES {
            assert_eq!(less(a.to_bits(), b.to_bits()), a < b, "{a} {b}");
        }
    }
    let negative_nan = f32::from_bits(0xFFC0_0000);
    assert!(negative_nan.is_nan());
    assert!(!less(negative_nan.to_bits(), 0));
    assert!(!less(0, negative_nan.to_bits()));
}

#[test]
fn clamping_by_bits() {
    for a in SAMPLES {
        let expected = a.clamp(0.0, 1.0);
        assert_eq!(clamp_unit(a.to_bits()), expected.to_bits(), "{a}");
    }
}

#[test]
fn extremes_by_bits() {
    let v: Vec<u32> = [0.5f32, f32::NAN, -2.0, 3.0, 0.0].iter().map(|x| x.to_bits()).collect();
    assert_eq!(f32::from_bits(peak(&v, 0, 5, f32::MIN.to_bits())), 3.0);
    assert_eq!(f32::from_bits(trough(&v, 0, 5, f32::MAX.to_bits())), -2.0);
    assert_eq!(f32::from_bits(peak(&v, 0, 3, f32::MIN.to_bits())), 0.5);
    assert_eq!(f32::from_bits(trough(&v, 3, 3, f32::MAX.to_bits())), f32::MAX);
}

#[test]
fn bit_reversal_is_its_own_inverse() {
    let mut v: Vec<usize> = (0..8).collect();
    bit_reverse(&mut v);
    assert_eq!(v, vec![0, 4, 2, 6, 1, 5, 3, 7]);
    bit_reverse(&mut v);
    assert_eq!(v, (0..8).collect::<Vec<usize>>());
    let mut one = vec![7];
    bit_reverse(&mut one);
    assert_eq!(one, vec![7]);
}

fn butterfly(u: (f64, f64), s: (f64, f64), len: usize, k: usize) -> ((f64, f64), (f64, f64)) {
    let angle = -2.0 * std::f64::consts::PI * k as f64 / len as f64;
    let (c, d) = (angle.cos(), angle.sin());
    let v = (s.0 * c - s.1 * d, s.0 * d + s.1 * c);
    ((u.0 + v.0, u.1 + v.1), (u.0 - v.0, u.1 - v.1))
}

#[test]
fn the_transform_is_the_discrete_fourier_transform() {
    for n in [1usize, 2, 4, 8, 64] {
        let x: Vec<(f64, f64)> = (0..n).map(|i| ((i * i % 7) as f64 - 2.0, (i % 3) as f64)).collect();
        let mut y = x.clone();
        fft_inplace(&mut y, &butterfly);
        for (k, got) in y.iter().enumerate() {
            let mut want = (0.0, 0.0);
            for (i, v) in x.iter().enumerate() {
                let angle = -2.0 * std::f64::consts::PI * (k * i) as f64 / n as f64;
                want.0 += v.0 * angle.cos() - v.1 * angle.sin();
                want.1 += v.0 * angle.sin() + v.1 * angle.cos();
            }
            assert!((got.0 - want.0).abs() < 1e-9 && (got.1 - want.1).abs() < 1e-9, "{n} {k}");
        }
    }
    let mut none: Vec<(f64, f64)> = Vec::new();
    fft_inplace(&mut none, &butterfly);
    assert!(none.is_empty());
}

#[test]
fn an_engine_at_the_start() {
    let e: Engine<f32> = Engine::new(0.0);
    assert_eq!(f32::from_bits(e.volume()), 0.7);
    assert_eq!(f32::from_bits(e.drive()), 0.0);
    assert_eq!(f32::from_bits(e.reverb()), 0.0);
    assert_eq!(f32::from_bits(e.comp()), 0.0);
    assert_eq!(f32::from_bits(e.bits_levels()), 0.0);
    assert_eq!(e.left(), &[0.0; BLOCK]);
    assert_eq!(e.right(), &[0.0; BLOCK]);
}

#[test]
fn settings_are_kept_in_range() {
    let mut e: Engine<f32> = Engine::new(0.0);
    e.set_drive(1.5f32.to_bits());
    e.set_reverb((-0.5f32).to_bits());
    e.set_comp(0.25f32.to_bits());
    e.set_volume(f32::INFINITY.to_bits());
    e.set_bits_levels(2048f32.to_bits());
    assert_eq!(f32::from_bits(e.drive()), 1.0);
    assert_eq!(f32::from_bits(e.reverb()), 0.0);
    assert_eq!(f32::from_bits(e.comp()), 0.25);
    assert_eq!(f32::from_bits(e.volume()), 1.0);
    assert_eq!(f32::from_bits(e.bits_levels()), 2048.0);
}

#[test]
fn a_voice_needs_nine_parameters() {
    let e: Engine<f32> = Engine::new(0.0);
    let l: Vec<f32> = (0..12).map(|i| i as f32).collect();
    let r: Vec<f32> = (0..9).map(|i| 10.0 + i as f32).collect();
    match e.trigger_voice(&l, &r, 2.0f32.to_bits()) {
        Some(v) => {
            assert_eq!(v.left, [0.0, 1.0, 2.0, 3.0, 4.0, 5.0, 6.0, 7.0, 8.0]);
            assert_eq!(v.right, [10.0, 11.0, 12.0, 13.0, 14.0, 15.0, 16.0, 17.0, 18.0]);
            assert_eq!(f32::from_bits(v.width), 1.0);
        }
        None => panic!("no voice"),
    }
    assert!(e.trigger_voice(&l[..8], &r, 0).is_none());
    assert!(e.trigger_voice(&l, &r[..8], 0).is_none());
    assert!(e.trigger_voice(&[], &[], 0).is_none());
}

#[test]
fn a_block_is_taken_as_far_as_it_goes() {
    let mut e: Engine<f32> = Engine::new(0.0);
    assert_eq!(block_len(5), 5);
    assert_eq!(block_len(1000), 128);
    let part: Vec<(f32, f32)> = (0..5).map(|i| (i as f32 + 1.0, -(i as f32))).collect();
    e.process(5, &part);
    assert_eq!(e.left()[..6], [1.0, 2.0, 3.0, 4.0, 5.0, 0.0]);
    assert_eq!(e.right()[..6], [0.0, -1.0, -2.0, -3.0, -4.0, 0.0]);
    let whole: Vec<(f32, f32)> = (0..128).map(|i| (i as f32, 0.5)).collect();
    e.process(300, &whole);
    assert_eq!(e.left()[127], 127.0);
    assert_eq!(e.right(), &[0.5; 128]);
}

#[test]
fn missing_parameters_are_filled_up() {
    assert_eq!(nine(&[1, 2, 3], 0), [1, 2, 3, 0, 0, 0, 0, 0, 0]);
    assert_eq!(nine(&[], 7), [7; 9]);
    assert_eq!(nine(&[1, 2, 3, 4, 5, 6, 7, 8, 9, 10], 0), [1, 2, 3, 4, 5, 6, 7, 8, 9]);
}

#[test]
fn channels_alternate_within_a_frame() {
    let mut frame = [0; 5];
    fill_frame(&mut frame, 1, 2);
    assert_eq!(frame, [1, 2, 1, 2, 1]);
    let mut mono = [0];
    fill_frame(&mut mono, 1, 2);
    assert_eq!(mono, [1]);
}

#[test]
fn an_envelope_shows_the_extremes_of_each_column() {
    assert_eq!(envelope_step(10, 3), 3);
    assert_eq!(envelope_step(2, 3), 1);
    assert_eq!(envelope_step(3, 3), 1);
    let samples: Vec<u32> =
        [0.0f32, 1.0, -1.0, 0.5, 0.25, 0.75, -3.0, -2.0, -2.5].iter().map(|x| x.to_bits()).collect();
    let shown: Vec<f32> = envelope(&samples, 3, 3).into_iter().map(f32::from_bits).collect();
    assert_eq!(shown, vec![-1.0, 1.0, 0.25, 0.75, -3.0, -2.0]);
    let empty: Vec<f32> = envelope(&vec![], 0, 1).into_iter().map(f32::from_bits).collect();
    assert_eq!(empty, vec![f32::MAX, f32::MIN]);
}

/// A sound whose samples tell their place, and how the parameters came in.
fn marked(p: [u32; 9], n: usize) -> Vec<u32> {
    let mark: u32 = p.iter().enumerate().map(|(i, v)| (i as u32 + 1) * v).sum();
    (0..n as u32).map(|i| mark * 100_000 + i).collect()
}

#[test]
fn an_envelope_of_a_rendered_sound() {
    assert_eq!(capture_envelope(&[], 7, 3, &marked), vec![0, 1, 2, 3, 4, 5]);
    assert_eq!(capture_envelope(&[], 1, 3, &marked), vec![0, 0, 1, 1, 2, 2]);
    assert_eq!(capture_envelope(&[1], 2, 1, &marked), vec![100_000, 100_001]);
}

#[test]
fn a_coarse_envelope_joins_the_columns_of_a_fine_one() {
    let wave = |p: [u32; 9], n: usize| -> Vec<u32> {
        (0..n as u32).map(|i| (((i * i * 7 + p[0]) % 31) as f32 - 15.5).to_bits()).collect()
    };
    for cols in 1..9usize {
        for step in 1..6usize {
            let wanted = 2 * cols * step;
            let coarse = capture_envelope(&[3], wanted, cols, &wave);
            let fine = capture_envelope(&[3], wanted, 2 * cols, &wave);
            for j in 0..cols {
                let at = |i: usize| f32::from_bits(fine[i]);
                assert_eq!(f32::from_bits(coarse[2 * j]), at(4 * j).min(at(4 * j + 2)));
                assert_eq!(f32::from_bits(coarse[2 * j + 1]), at(4 * j + 1).max(at(4 * j + 3)));
            }
        }
    }
}

#[test]
fn pictures_without_columns_are_empty() {
    assert_eq!(envelope_step(9, 0), 1);
    for wanted in [0, 1, 5000] {
        assert!(capture_envelope(&[1, 2], wanted, 0, &marked).is_empty());
        assert!(pictured(&[1, 2], wanted, 0, &vec![(0, 1), (1, 2)]).is_empty());
    }
    assert!(envelope(&vec![], 1, 0).is_empty());
}

/// A picture on which nothing is computed on the way.
fn pictured(params: &[u32], wanted: usize, cols: usize, bands: &Vec<(usize, usize)>) -> Vec<u32> {
    let optics = Optics {
        window: |sample: u32, _: usize| sample,
        butterfly: |u: u32, s: u32, _: usize, _: usize| (u, s),
        power: |c: u32| c,
        shade: |p: u32| p,
    };
    capture_spectrogram(params, wanted, cols, bands, &optics, 0, &marked)
}

#[test]
fn only_the_first_nine_parameters_matter() {
    let bands = vec![(0, 3)];
    let long: Vec<u32> = (1..=15).collect();
    for len in 0..15 {
        let mut filled = [0u32; 9];
        for i in 0..len.min(9) {
            filled[i] = long[i];
        }
        assert_eq!(pictured(&long[..len], 3000, 3, &bands), pictured(&filled, 3000, 3, &bands));
        assert_eq!(
            capture_envelope(&long[..len], 10, 4, &marked),
            capture_envelope(&filled, 10, 4, &marked)
        );
        assert_eq!(nine(&nine(&long[..len], 0), 0), nine(&long[..len], 0));
    }
    assert_ne!(pictured(&[1], 3000, 3, &bands), pictured(&[2], 3000, 3, &bands));
}

#[test]
fn a_spectrogram_is_filled_column_by_column() {
    let cols = 4;
    assert_eq!(spectrogram_span(100, cols), FFT + 4);
    assert_eq!(spectrogram_span(5000, cols), 5000);
    let hop = (5000 - FFT as u32) / 3;
    let out = pictured(&[], 5000, cols, &vec![(0, 1), (1, 2)]);
    assert_eq!(out, vec![0, hop, 2 * hop, 3 * hop, 512, hop + 512, 2 * hop + 512, 3 * hop + 512]);
    assert_eq!(pictured(&[], 0, 1, &vec![(2, 0)]), vec![256]);
    assert!(pictured(&[], 0, 3, &vec![]).is_empty());
}

#[test]
fn columns_of_a_spectrogram_stay_within_the_samples() {
    for cols in 1..40usize {
        for extra in [0usize, 1, 7, 1000] {
            let n = spectrogram_span(FFT + extra, cols);
            for last in pictured(&[], FFT + extra, cols, &vec![(0, 512)]) {
                assert!((last as usize) < n);
            }
        }
    }
}

#[test]
fn a_tone_shows_in_its_band() {
    let bin = 96;
    let samples: Vec<u32> = (0..FFT + 5)
        .map(|i| {
            let phase = 2.0 * std::f64::consts::PI * (bin * i) as f64 / FFT as f64;
            (phase.sin() as f32).to_bits()
        })
        .collect();
    let optics = Optics {
        window: |sample: u32, _: usize| (f32::from_bits(sample) as f64, 0.0),
        butterfly,
        power: |c: (f64, f64)| ((c.0 * c.0 + c.1 * c.1) as f32).to_bits(),
        shade: |p: u32| f32::from_bits(p),
    };
    let bands = vec![(97, 512), (96, 97), (0, 96)];
    for start in [0, 5] {
        let cells = spectrum_column(&optics, &bands, &samples, start);
        assert!(cells[0] < 1e-6 && cells[2] < 1e-6);
        assert!((cells[1] - 512.0 * 512.0).abs() < 1.0);
    }
    let picture = spectrogram(&optics, &bands, &samples, 2, 0.0);
    assert!(picture[2] > 262000.0 && picture[3] > 262000.0);
    assert!(picture[0] < 1e-6 && picture[5] < 1e-6);
}

#[test]
fn transforming_twice_with_the_parts_exchanged_gives_the_elements_back() {
    for n in [1usize, 2, 8, 128] {
        let x: Vec<(f64, f64)> = (0..n).map(|i| ((i * 3 % 11) as f64, (i * i % 5) as f64 - 1.0)).collect();
        let mut y = x.clone();
        fft_inplace(&mut y, &butterfly);
        for c in y.iter_mut() {
            *c = (c.1, c.0);
        }
        fft_inplace(&mut y, &butterfly);
        for (got, want) in y.iter().zip(&x) {
            assert!((got.1 - n as f64 * want.0).abs() < 1e-9 && (got.0 - n as f64 * want.1).abs() < 1e-9);
        }
    }
}

fn power(w: u64, a: u64, p: u64) -> u64 {
    (0..a).fold(1, |acc, _| acc * w % p)
}

#[test]
fn the_transform_gives_the_fourier_sums_of_remainders() {
    // 3 to the power of 16 is a root of order 16 among the remainders by 257
    let (p, n) = (257u64, 16usize);
    let w = power(3, 16, p);
    assert_eq!(power(w, 8, p), p - 1);
    let turn = |root: u64| {
        move |u: u64, s: u64, len: usize, k: usize| {
            let t = power(root, (k * (n / len)) as u64, p) * s % p;
            ((u + t) % p, (u + p - t) % p)
        }
    };
    let x: Vec<u64> = (0..n as u64).map(|i| (i * i * 7 + 3) % p).collect();
    let mut y = x.clone();
    fft_inplace(&mut y, &turn(w));
    for k in 0..n {
        let sum: u64 = (0..n).map(|j| power(w, (j * k) as u64, p) * x[j] % p).sum();
        assert_eq!(y[k], sum % p);
    }
    let v = power(w, 15, p);
    assert_eq!(v * w % p, 1);
    fft_inplace(&mut y, &turn(v));
    for j in 0..n {
        assert_eq!(y[j], n as u64 * x[j] % p);
    }
}

#[test]
fn bands_have_at_least_one_bin() {
    let mut power: Vec<u32> = vec![0; BINS];
    power[3] = 2.0f32.to_bits();
    power[5] = 7.0f32.to_bits();
    power[511] = 9.0f32.to_bits();
    let bands = vec![(3, 3), (3, 6), (5, 2), (0, 3), (510, 9999), (512, 600), (600, 700), (511, 512)];
    let got: Vec<f32> = band_peaks(&power, &bands).into_iter().map(f32::from_bits).collect();
    assert_eq!(got, vec![2.0, 7.0, 7.0, 0.0, 9.0, 0.0, 0.0, 9.0]);
}
