//! The signal path and the network, run on 32-bit floating-point samples.

use std::sync::Arc;

use rnnoise::arith::{Real, Sample};
use rnnoise::celt_lpc::{autocorr, dual_inner_prod, fir5, inner_prod, lpc, pitch_xcorr};
use rnnoise::common::{
    compute_band_corr, compute_band_energy, high_pass, interp_band_gain, Common,
};
use rnnoise::denoise::{find_pitch, DenoiseState};
use rnnoise::factor::kf_factor;
use rnnoise::fft::{Cpx, KissFft};
use rnnoise::layer::{LinearLayer, Weights};
use rnnoise::model::RnnModel;
use rnnoise::nnet::{
    compute_activation, compute_conv1d, compute_dense, compute_gru, sigmoid_approx, tanh_approx,
    Activation,
};
use rnnoise::pcm::{decode, encode};
use rnnoise::pitch::{find_best_pitch, pitch_downsample, pitch_search, remove_doubling};
use rnnoise::quantize::quant;
use rnnoise::rnn::{compute_rnn, RnnState};
use rnnoise::{
    EBAND20MS, FRAME_SIZE, FREQ_SIZE, NB_BANDS, NB_FEATURES, PITCH_BUF_SIZE, WINDOW_SIZE,
};

#[derive(Clone, Copy, Debug, PartialEq)]
struct F32(f32);

#[derive(Clone, Copy, Debug, PartialEq)]
struct F64(f64);

impl Real for F64 {
    fn ratio(n: i64, d: i64) -> Self {
        F64(n as f64 / d as f64)
    }
    fn pi() -> Self {
        F64(std::f64::consts::PI)
    }
    fn plus(self, rhs: Self) -> Self {
        F64(self.0 + rhs.0)
    }
    fn minus(self, rhs: Self) -> Self {
        F64(self.0 - rhs.0)
    }
    fn times(self, rhs: Self) -> Self {
        F64(self.0 * rhs.0)
    }
    fn over(self, rhs: Self) -> Self {
        F64(self.0 / rhs.0)
    }
    fn negated(self) -> Self {
        F64(-self.0)
    }
    fn magnitude(self) -> Self {
        F64(self.0.abs())
    }
    fn larger(self, rhs: Self) -> Self {
        F64(self.0.max(rhs.0))
    }
    fn smaller(self, rhs: Self) -> Self {
        F64(self.0.min(rhs.0))
    }
    fn root(self) -> Self {
        F64(self.0.sqrt())
    }
    fn log10(self) -> Self {
        F64(self.0.log10())
    }
    fn sine(self) -> Self {
        F64(self.0.sin())
    }
    fn cosine(self) -> Self {
        F64(self.0.cos())
    }
    fn floored(self) -> Self {
        F64(self.0.floor())
    }
    fn below(self, rhs: Self) -> bool {
        self.0 < rhs.0
    }
    fn at_most(self, rhs: Self) -> bool {
        self.0 <= rhs.0
    }
    fn equals(self, rhs: Self) -> bool {
        self.0 == rhs.0
    }
}

impl Real for F32 {
    fn ratio(n: i64, d: i64) -> Self {
        F32((n as f64 / d as f64) as f32)
    }
    fn pi() -> Self {
        F32(std::f32::consts::PI)
    }
    fn plus(self, rhs: Self) -> Self {
        F32(self.0 + rhs.0)
    }
    fn minus(self, rhs: Self) -> Self {
        F32(self.0 - rhs.0)
    }
    fn times(self, rhs: Self) -> Self {
        F32(self.0 * rhs.0)
    }
    fn over(self, rhs: Self) -> Self {
        F32(self.0 / rhs.0)
    }
    fn negated(self) -> Self {
        F32(-self.0)
    }
    fn magnitude(self) -> Self {
        F32(self.0.abs())
    }
    fn larger(self, rhs: Self) -> Self {
        F32(self.0.max(rhs.0))
    }
    fn smaller(self, rhs: Self) -> Self {
        F32(self.0.min(rhs.0))
    }
    fn root(self) -> Self {
        F32(self.0.sqrt())
    }
    fn log10(self) -> Self {
        F32(self.0.log10())
    }
    fn sine(self) -> Self {
        F32(self.0.sin())
    }
    fn cosine(self) -> Self {
        F32(self.0.cos())
    }
    fn floored(self) -> Self {
        F32(self.0.floor())
    }
    fn below(self, rhs: Self) -> bool {
        self.0 < rhs.0
    }
    fn at_most(self, rhs: Self) -> bool {
        self.0 <= rhs.0
    }
    fn equals(self, rhs: Self) -> bool {
        self.0 == rhs.0
    }
}

impl Sample for F32 {
    type Wide = F64;
    fn widen(self) -> F64 {
        F64(self.0 as f64)
    }
    fn narrow(w: F64) -> Self {
        F32(w.0 as f32)
    }
    fn from_bits(bits: u32) -> Self {
        F32(f32::from_bits(bits))
    }
    fn to_bits(self) -> u32 {
        self.0.to_bits()
    }
    fn rounded(self) -> i32 {
        self.0.round() as i32
    }
    fn index(self) -> usize {
        self.0 as usize
    }
    fn short(self) -> i16 {
        self.0 as i16
    }
}

// --- the transform ----------------------------------------------------------

fn naive_dft(input: &[Cpx<F32>], scale: f32) -> Vec<(f32, f32)> {
    let n = input.len();
    let mut out = vec![(0.0f32, 0.0f32); n];
    for (k, o) in out.iter_mut().enumerate() {
        let mut acc = (0.0f32, 0.0f32);
        for (j, x) in input.iter().enumerate() {
            let phase = -2.0 * std::f64::consts::PI * (k * j) as f64 / n as f64;
            let (s, c) = phase.sin_cos();
            let (c, s) = (c as f32, s as f32);
            acc.0 += x.r.0 * c - x.i.0 * s;
            acc.1 += x.r.0 * s + x.i.0 * c;
        }
        *o = (acc.0 * scale, acc.1 * scale);
    }
    out
}

fn max_dft_error(n: usize) -> f32 {
    let fft = KissFft::<F32>::new(n);
    assert_eq!(fft.nfft(), n);
    let mut state = 12345u32;
    let mut next = || {
        state = state.wrapping_mul(1664525).wrapping_add(1013904223);
        (state >> 8) as f32 / 16_777_216.0 - 0.5
    };
    let input: Vec<Cpx<F32>> = (0..n).map(|_| Cpx::new(F32(next()), F32(0.0))).collect();
    let mut out = vec![Cpx::new(F32(0.0), F32(0.0)); n];
    fft.forward(&input, &mut out);
    let reference = naive_dft(&input, 1.0 / n as f32);
    let mut max_err = 0.0f32;
    for (a, b) in out.iter().zip(&reference) {
        max_err = max_err.max((a.r.0 - b.0).abs()).max((a.i.0 - b.1).abs());
    }
    max_err
}

#[test]
fn fft_matches_naive_dft_960() {
    let n = 960;
    let max_err = max_dft_error(n);
    assert!(max_err < 1e-5, "max FFT error {max_err}");
}

#[test]
fn fft_matches_naive_dft_for_every_radix() {
    for n in [2, 3, 4, 5, 8, 6, 10, 12, 15, 20, 25, 32, 40, 60, 128, 180, 480] {
        let max_err = max_dft_error(n);
        assert!(max_err < 1e-5, "length {n}: max FFT error {max_err}");
    }
}

#[test]
fn factors_960() {
    let mut fac = [0i16; 16];
    assert!(kf_factor(960, &mut fac));
    // 960 = 5 * 3 * 4 * 4 * 4 (processing order)
    assert_eq!(&fac[0..10], &[5, 192, 3, 64, 4, 16, 4, 4, 4, 1]);
}

// --- activations ------------------------------------------------------------

#[test]
fn activations_bounds() {
    let tanh_approx = |x: f32| tanh_approx(F32(x)).0;
    let sigmoid_approx = |x: f32| sigmoid_approx(F32(x)).0;
    assert!((tanh_approx(0.0)).abs() < 1e-6);
    assert!((sigmoid_approx(0.0) - 0.5).abs() < 1e-6);
    assert!(tanh_approx(100.0) <= 1.0 && tanh_approx(100.0) > 0.999);
    assert!(tanh_approx(-100.0) >= -1.0 && tanh_approx(-100.0) < -0.999);
}

fn plain(x: &[F32]) -> Vec<f32> {
    x.iter().map(|v| v.0).collect()
}

fn samples(x: &[f32]) -> Vec<F32> {
    x.iter().map(|&v| F32(v)).collect()
}

fn close(a: f32, b: f32, tolerance: f32) -> bool {
    (a - b).abs() <= tolerance
}

/// A generator of numbers between -0.5 and 0.5.
fn noise(seed: u32) -> impl FnMut() -> f32 {
    let mut state = seed;
    move || {
        state = state.wrapping_mul(1664525).wrapping_add(1013904223);
        (state >> 8) as f32 / 16_777_216.0 - 0.5
    }
}

#[test]
fn constants_are_the_nearest_numbers() {
    let single: [(i64, i64, f32); 23] = [
        (70710677, 100000000, 0.707_106_77),
        (60863042, 100000000, 0.608_630_42),
        (9639235687, 100000000, 96.392_356_87),
        (95252801514, 100000000, 952.528_015_14),
        (1188600922, 100000000, 11.886_009_22),
        (41336801147, 100000000, 413.368_011_47),
        (95272399902, 100000000, 952.723_999_02),
        (-199599, 100000, -1.99599),
        (996, 1000, 0.99600),
        (1, 1000, 0.001),
        (4, 100, 0.04),
        (6, 10, 0.6),
        (1, 100, 0.01),
        (10001, 10000, 1.0001),
        (8, 1000, 0.008),
        (9, 10, 0.9),
        (8, 10, 0.8),
        (7, 10, 0.7),
        (85, 100, 0.85),
        (4, 10, 0.4),
        (3, 10, 0.3),
        (21, 10, 2.1),
        (13, 10, 1.3),
    ];
    for (n, d, x) in single {
        assert_eq!(F32::ratio(n, d).0, x);
    }
    let double: [(i64, i64, f64); 5] = [
        (3015113445777635, 10000000000000000, 0.301_511_344_577_763_5),
        (1, 1000, 0.001),
        (1, 100000000, 1e-8),
        (3, 2, 1.5),
        (1, 100, 1e-2),
    ];
    for (n, d, x) in double {
        assert_eq!(F64::ratio(n, d).0, x);
    }
}

// --- plans of the transform -------------------------------------------------

#[test]
fn plans_of_other_lengths() {
    let mut fac = [0i16; 16];
    assert!(kf_factor(480, &mut fac));
    assert_eq!(&fac[0..10], &[5, 96, 3, 32, 4, 8, 2, 4, 4, 1]);
    let mut fac = [-9i16; 8];
    assert!(kf_factor(64, &mut fac));
    assert_eq!(fac, [4, 16, 4, 4, 4, 1, -9, -9]);
    let mut fac = [-9i16; 4];
    assert!(kf_factor(2, &mut fac));
    assert_eq!(fac, [2, 1, -9, -9]);
    // Every plan divides the length down to one, and the last radix is 2 or 4
    // where the length is even.
    for n in [6, 8, 9, 10, 12, 15, 16, 20, 30, 32, 45, 60, 75, 120, 128, 240, 360, 600] {
        let mut fac = [0i16; 32];
        assert!(kf_factor(n, &mut fac), "length {n}");
        let mut left = n;
        let mut last = 0;
        for k in 0..16 {
            if fac[2 * k] == 0 {
                break;
            }
            last = fac[2 * k];
            assert_eq!(left % last as i32, 0);
            left /= last as i32;
            assert_eq!(fac[2 * k + 1] as i32, left);
        }
        assert_eq!(left, 1);
        assert!(n % 2 == 1 || last == 2 || last == 4);
    }
}

#[test]
fn lengths_with_other_prime_factors_have_no_plan() {
    for n in [7, 14, 11, 13, 77, 49, 961, 1022] {
        let mut fac = [0i16; 32];
        assert!(!kf_factor(n, &mut fac), "length {n}");
    }
}

// --- the transform on given values -------------------------------------------

#[test]
fn transform_of_four_samples() {
    let fft = KissFft::<F32>::new(4);
    let input: Vec<Cpx<F32>> =
        [1.0, 2.0, 3.0, 4.0].iter().map(|&x| Cpx::new(F32(x), F32(0.0))).collect();
    let mut out = vec![Cpx::new(F32(9.0), F32(9.0)); 4];
    fft.forward(&input, &mut out);
    let got: Vec<(f32, f32)> = out.iter().map(|c| (c.r.0, c.i.0)).collect();
    assert_eq!(got, vec![(2.5, 0.0), (-0.5, 0.5), (-0.5, 0.0), (-0.5, -0.5)]);
}

#[test]
fn transform_of_an_impulse_is_flat() {
    for n in [8usize, 12, 20, 960] {
        let fft = KissFft::<F32>::new(n);
        let mut input = vec![Cpx::new(F32(0.0), F32(0.0)); n];
        input[0] = Cpx::new(F32(n as f32), F32(0.0));
        let mut out = input.clone();
        fft.forward(&input, &mut out);
        for c in &out {
            assert!(close(c.r.0, 1.0, 1e-6) && close(c.i.0, 0.0, 1e-6), "length {n}");
        }
    }
}

#[test]
fn a_spectrum_gives_back_its_signal() {
    let common = Common::<F32>::new();
    let mut next = noise(7);
    let x: Vec<F32> = (0..WINDOW_SIZE).map(|_| F32(1000.0 * next())).collect();
    let spectrum = common.forward_transform(&x);
    assert_eq!(spectrum.len(), FREQ_SIZE);
    let y = common.inverse_transform(&spectrum);
    for (a, b) in x.iter().zip(&y) {
        assert!(close(a.0, b.0, 1e-2), "{} and {}", a.0, b.0);
    }
}

#[test]
fn overlapping_windows_add_up_to_the_signal() {
    let common = Common::<F32>::new();
    let ones = vec![F32(1.0); WINDOW_SIZE];
    let w = plain(&common.apply_window(&ones));
    let first = (0.5 * std::f64::consts::PI * 0.5 / 480.0).sin();
    assert_eq!(w[0], (0.5 * std::f64::consts::PI * first * first).sin() as f32);
    for i in 0..FRAME_SIZE {
        assert_eq!(w[i], w[WINDOW_SIZE - 1 - i]);
        assert!(close(w[i] * w[i] + w[FRAME_SIZE + i] * w[FRAME_SIZE + i], 1.0, 1e-6));
    }
    // Three frames: the end of the first two under the window and the start of
    // the last two add up to the frame in the middle.
    let mut next = noise(3);
    let x: Vec<F32> = (0..3 * FRAME_SIZE).map(|_| F32(100.0 * next())).collect();
    let through = |part: &[F32]| {
        let spectrum = common.forward_transform(&common.apply_window(part));
        common.apply_window(&common.inverse_transform(&spectrum))
    };
    let early = through(&x[..WINDOW_SIZE]);
    let late = through(&x[FRAME_SIZE..]);
    for i in 0..FRAME_SIZE {
        let sum = early[FRAME_SIZE + i].0 + late[i].0;
        assert!(close(sum, x[FRAME_SIZE + i].0, 1e-3));
    }
}

// --- bands, cosines and the filter ------------------------------------------

#[test]
fn cosine_transform_of_constant_bands() {
    let common = Common::<F32>::new();
    let out = plain(&common.dct(&vec![F32(2.0); NB_BANDS]));
    let expected = 2.0 * 32.0 * 0.5f64.sqrt() * (2.0f64 / 22.0).sqrt();
    assert!(close(out[0], expected as f32, 1e-4));
    for c in &out[1..] {
        assert!(close(*c, 0.0, 1e-4));
    }
    let mut x = vec![F32(0.0); NB_BANDS];
    x[3] = F32(1.0);
    let out = plain(&common.dct(&x));
    for (j, c) in out.iter().enumerate().skip(1) {
        let t = (3.5 * j as f64 * std::f64::consts::PI / 32.0).cos() as f32;
        assert_eq!(*c, (t as f64 * 0.301_511_344_577_763_5) as f32);
    }
}

#[test]
fn band_energies_of_single_bins() {
    let zero = Cpx::new(F32(0.0), F32(0.0));
    // A bin on an edge belongs to the band of that edge alone.
    let mut x = vec![zero; FREQ_SIZE];
    x[EBAND20MS[10]] = Cpx::new(F32(3.0), F32(4.0));
    let e = plain(&compute_band_energy(&x));
    for (b, v) in e.iter().enumerate() {
        assert_eq!(*v, if b == 9 { 25.0 } else { 0.0 });
    }
    // A bin between two edges is shared by the bands on either side.
    let (lo, hi) = (EBAND20MS[20], EBAND20MS[21]);
    let mut x = vec![zero; FREQ_SIZE];
    x[lo + 3] = Cpx::new(F32(1.0), F32(0.0));
    let e = plain(&compute_band_energy(&x));
    let f = 3.0 / (hi - lo) as f32;
    assert_eq!((e[19], e[20]), (1.0 - f, f));
    // The first band takes two thirds of what is at the first edges.
    let mut x = vec![zero; FREQ_SIZE];
    x[0] = Cpx::new(F32(3.0), F32(0.0));
    assert_eq!(compute_band_energy(&x)[0].0, 6.0);
    // Nothing above the last edge counts.
    let mut x = vec![zero; FREQ_SIZE];
    x[400] = Cpx::new(F32(3.0), F32(0.0));
    assert!(plain(&compute_band_energy(&x)).iter().all(|v| *v == 0.0));
}

#[test]
fn band_correlations_change_sign_with_a_spectrum() {
    let mut next = noise(11);
    let x: Vec<Cpx<F32>> = (0..FREQ_SIZE).map(|_| Cpx::new(F32(next()), F32(next()))).collect();
    let p: Vec<Cpx<F32>> = x.iter().map(|c| Cpx::new(F32(-c.r.0), F32(-c.i.0))).collect();
    let e = compute_band_energy(&x);
    let c = compute_band_corr(&x, &p);
    assert_eq!(e.len(), NB_BANDS);
    for b in 0..NB_BANDS {
        assert!(e[b].0 > 0.0);
        assert_eq!(c[b].0, -e[b].0);
    }
}

#[test]
fn gains_run_from_band_to_band() {
    let e: Vec<F32> = (0..NB_BANDS).map(|b| F32(b as f32 + 1.0)).collect();
    let g = plain(&interp_band_gain(&e));
    assert_eq!(g.len(), FREQ_SIZE);
    assert_eq!((g[0], g[1]), (1.0, 1.0));
    for b in 0..NB_BANDS {
        assert_eq!(g[EBAND20MS[b + 1]], b as f32 + 1.0);
    }
    let (lo, hi) = (EBAND20MS[15], EBAND20MS[16]);
    let f = 2.0 / (hi - lo) as f32;
    assert_eq!(g[lo + 2], (1.0 - f) * 15.0 + f * 16.0);
    assert!(g[356..400].iter().all(|v| *v == 32.0));
    assert!(g[400..].iter().all(|v| *v == 0.0));
}

#[test]
fn the_filter_removes_the_constant_part() {
    let mut mem = (F32(0.0), F32(0.0));
    let y = plain(&high_pass(&mut mem, &samples(&[1.0, 0.0, 0.0])));
    // The response of the filter to an impulse.
    let (a0, a1) = (-1.99599f32 as f64, 0.99600f32 as f64);
    let m0 = (-2.0 - a0) as f32;
    let m1 = (1.0 - a1) as f32;
    let m2 = (m1 as f64 - a0 * m0 as f64) as f32;
    assert_eq!(y, vec![1.0, m0, m2]);
    let mut mem = (F32(0.0), F32(0.0));
    let mut last = 0.0;
    for _ in 0..20 {
        last = high_pass(&mut mem, &vec![F32(1000.0); FRAME_SIZE])[FRAME_SIZE - 1].0;
    }
    assert!(close(last, 0.0, 1.0), "{last} is left");
}

#[test]
fn the_filter_can_be_run_in_pieces() {
    let mut next = noise(5);
    let x: Vec<F32> = (0..100).map(|_| F32(next())).collect();
    let mut whole = (F32(0.0), F32(0.0));
    let all = high_pass(&mut whole, &x);
    let mut mem = (F32(0.0), F32(0.0));
    let mut parts = high_pass(&mut mem, &x[..33]);
    parts.extend(high_pass(&mut mem, &x[33..]));
    assert_eq!(all, parts);
    assert_eq!(whole, mem);
}

// --- correlation and prediction ---------------------------------------------

#[test]
fn inner_products() {
    let x = samples(&[1.0, 2.0, 3.0, 4.0, 5.0, 6.0]);
    let y = samples(&[2.0, -1.0, 0.5, 1.0, 1.0, 10.0]);
    assert_eq!(inner_prod(&x, &y, 6).0, 2.0 - 2.0 + 1.5 + 4.0 + 5.0 + 60.0);
    assert_eq!(inner_prod(&x, &y, 5).0, 10.5);
    assert_eq!(inner_prod(&x, &y, 0).0, 0.0);
    let (a, b) = dual_inner_prod(&x, &y, &x, 6);
    assert_eq!((a.0, b.0), (70.5, 91.0));
}

#[test]
fn correlations_at_every_lag() {
    let mut next = noise(2);
    let y: Vec<F32> = (0..64).map(|_| F32((next() * 16.0).round())).collect();
    for (len, lags) in [(20usize, 7usize), (21, 8), (5, 1), (40, 25)] {
        let c = pitch_xcorr(&y, &y, len, lags);
        assert_eq!(c.len(), lags);
        for (k, v) in c.iter().enumerate() {
            let expected: f32 = (0..len).map(|j| y[j].0 * y[j + k].0).sum();
            assert_eq!(v.0, expected);
        }
    }
    let ac = autocorr(&y, 4, 50);
    for (k, v) in ac.iter().enumerate() {
        let expected: f32 = (k..50).map(|j| y[j].0 * y[j - k].0).sum();
        assert_eq!(v.0, expected);
    }
}

#[test]
fn the_predictor_of_a_decaying_signal() {
    // Autocorrelation of a signal in which each sample is half the one before.
    let ac = samples(&[1.0, 0.5, 0.25, 0.125, 0.0625]);
    let c = plain(&lpc(&ac, 4));
    assert_eq!(c, vec![-0.5, 0.0, 0.0, 0.0]);
    assert_eq!(plain(&lpc(&samples(&[0.0, 1.0, 1.0]), 2)), vec![0.0, 0.0]);
}

#[test]
fn the_predictor_solves_its_equations() {
    let mut next = noise(13);
    let mut last = 0.0;
    let x: Vec<F32> = (0..400)
        .map(|_| {
            last = 0.7 * last + next();
            F32(last)
        })
        .collect();
    let ac = plain(&autocorr(&x, 4, 400));
    let a = plain(&lpc(&samples(&ac), 4));
    for m in 1..=4i32 {
        let mut sum = ac[m as usize];
        for j in 0..4i32 {
            sum += a[j as usize] * ac[(m - 1 - j).unsigned_abs() as usize];
        }
        assert!(sum.abs() < 1e-3 * ac[0], "equation {m}: {sum}");
    }
}

#[test]
fn a_filter_of_order_five() {
    let mut x = samples(&[1.0, 0.0, 0.0, 0.0, 0.0, 0.0, 2.0]);
    let num = [F32(0.5), F32(0.25), F32(-1.0), F32(4.0), F32(8.0)];
    let mut mem = [F32(0.0); 5];
    fir5(&mut x, &num, &mut mem);
    assert_eq!(plain(&x), vec![1.0, 0.5, 0.25, -1.0, 4.0, 8.0, 2.0]);
    assert_eq!(plain(&mem), vec![2.0, 0.0, 0.0, 0.0, 0.0]);
    let mut y = samples(&[0.0, 0.0]);
    fir5(&mut y, &num, &mut mem);
    assert_eq!(plain(&y), vec![1.0, 0.5]);
}

// --- pitch ------------------------------------------------------------------

fn pulses(period: usize) -> Vec<F32> {
    (0..PITCH_BUF_SIZE)
        .map(|i| {
            let t = (i % period) as f32 / period as f32;
            F32(3000.0 * (-8.0 * t).exp() * (12.0 * t).cos())
        })
        .collect()
}

#[test]
fn the_period_of_a_periodic_signal_is_found() {
    for period in [100usize, 160, 200, 240, 331] {
        let (found, gain) = find_pitch(&pulses(period), 0, F32(0.0));
        let off = (found as i32 - period as i32).abs();
        assert!(off <= 2, "period {period}, found {found}");
        assert!(gain.0 > 0.5 && gain.0 <= 1.0, "gain {}", gain.0);
    }
}

#[test]
fn a_period_stays_in_its_range() {
    let mut next = noise(9);
    for scale in [0.0, 1.0, 1e6] {
        let x: Vec<F32> = (0..PITCH_BUF_SIZE).map(|_| F32(scale * next())).collect();
        for last in [0, 60, 400, 767] {
            let (period, _) = find_pitch(&x, last, F32(0.5));
            assert!((60..768).contains(&period));
        }
    }
}

#[test]
fn the_steps_of_the_pitch_search() {
    let ds = pitch_downsample(&pulses(200), PITCH_BUF_SIZE);
    assert_eq!(ds.len(), PITCH_BUF_SIZE / 2);
    let lag = pitch_search(&ds[384..], &ds, 960, 768 - 180);
    assert!((768 - lag) % 200 <= 2 || (768 - lag) % 200 >= 198, "lag {lag}");
    // A multiple of the period is corrected.
    let mut t0 = 400;
    let gain = remove_doubling(&ds, 768, 60, 960, &mut t0, 0, F32(0.0));
    assert!((t0 - 200).abs() <= 2, "period {t0}");
    assert!(gain.0 > 0.5 && gain.0 <= 1.0);
}

#[test]
fn the_two_best_lags() {
    let y = vec![F32(1.0); 16];
    let xcorr = samples(&[1.0, 5.0, -9.0, 4.0, 2.0, 0.0]);
    // Negative correlations do not count.
    assert_eq!(find_best_pitch(&xcorr, &y, 4, 6), (1, 3));
    let none = samples(&[-1.0, -2.0, 0.0]);
    assert_eq!(find_best_pitch(&none, &y, 4, 3), (0, 1));
}

#[test]
fn the_best_lags_have_the_largest_quotients() {
    let mut next = noise(19);
    let y: Vec<F32> = (0..60).map(|_| F32((next() * 20.0).round())).collect();
    let xcorr: Vec<F32> = (0..30).map(|_| F32((next() * 200.0).round())).collect();
    let len = 25;
    // The energy of the signal at every lag, and one.
    let energy = |i: usize| 1.0 + (i..i + len).map(|k| y[k].0 * y[k].0).sum::<f32>();
    let quotient = |i: usize| {
        let x = xcorr[i].0.max(0.0);
        x * x / energy(i)
    };
    let (first, second) = find_best_pitch(&xcorr, &y, len, 30);
    for i in 0..30 {
        assert!(quotient(i) <= quotient(first));
        assert!(i == first || quotient(i) <= quotient(second));
    }
    // Scaling the correlations changes nothing, however small they become.
    for exponent in [10, -40] {
        let c = 2.0f32.powi(exponent);
        let scaled: Vec<F32> = xcorr.iter().map(|x| F32(c * x.0)).collect();
        assert_eq!(find_best_pitch(&scaled, &y, len, 30), (first, second));
    }
}

// --- layers of the network --------------------------------------------------

fn tanh_by_hand(x: f32) -> f32 {
    let x2 = x * x;
    let num = (0.608_630_42f32 * x2 + 96.392_356_87) * x2 + 952.528_015_14;
    let den = (11.886_009_22f32 * x2 + 413.368_011_47) * x2 + 952.723_999_02;
    (num * x / den).min(1.0).max(-1.0)
}

#[test]
fn activations_on_given_values() {
    for i in -400..=400 {
        let x = i as f32 / 40.0;
        assert_eq!(tanh_approx(F32(x)).0, tanh_by_hand(x));
        assert_eq!(sigmoid_approx(F32(x)).0, 0.5 + 0.5 * tanh_by_hand(0.5 * x));
        assert!(close(tanh_approx(F32(x)).0, x.tanh(), 1e-3));
    }
    let mut v = samples(&[-3.0, 0.0, 3.0]);
    compute_activation(&mut v, Activation::Linear);
    assert_eq!(plain(&v), vec![-3.0, 0.0, 3.0]);
    compute_activation(&mut v, Activation::Sigmoid);
    assert_eq!(v[1].0, 0.5);
    compute_activation(&mut v, Activation::Tanh);
    assert_eq!(v[1].0, tanh_by_hand(0.5));
}

fn bits(x: &[f32]) -> Vec<u32> {
    x.iter().map(|v| v.to_bits()).collect()
}

fn dense_layer(nb_inputs: usize, bias: &[f32], w: &[f32]) -> LinearLayer {
    LinearLayer {
        bias: bits(bias),
        weights: Weights::Float(bits(w)),
        weights_idx: None,
        diag: None,
        nb_inputs,
        nb_outputs: bias.len(),
    }
}

#[test]
fn a_dense_layer() {
    // Two outputs, three inputs; the weights of one input lie together.
    let layer = dense_layer(3, &[0.5, -1.0], &[1.0, 2.0, 3.0, 4.0, 5.0, 6.0]);
    let out = layer.compute(&samples(&[1.0, 10.0, 100.0]));
    assert_eq!(plain(&out), vec![531.5, 641.0]);
    let out = compute_dense(&layer, &samples(&[0.0, 0.0, 0.0]), Activation::Tanh);
    assert_eq!(plain(&out), vec![tanh_by_hand(0.5), tanh_by_hand(-1.0)]);
}

fn sparse_test_layer() -> LinearLayer {
    // One group of eight rows with blocks at the columns 4 and 0.
    let w: Vec<f32> = (0..64).map(|k| k as f32 - 20.0).collect();
    LinearLayer {
        bias: bits(&[1.0; 8]),
        weights: Weights::Float(bits(&w)),
        weights_idx: Some(vec![2, 4, 0]),
        diag: None,
        nb_inputs: 8,
        nb_outputs: 8,
    }
}

#[test]
fn a_sparse_layer() {
    let layer = sparse_test_layer();
    let x: Vec<f32> = (0..8).map(|i| (i + 1) as f32).collect();
    let out = plain(&layer.compute(&samples(&x)));
    for (row, v) in out.iter().enumerate() {
        let mut expected = 1.0;
        for (block, col) in [(0usize, 4usize), (1, 0)] {
            for c in 0..4 {
                let w = (32 * block + 8 * c + row) as f32 - 20.0;
                expected += w * x[col + c];
            }
        }
        assert_eq!(*v, expected);
    }
}

#[test]
fn a_diagonal_counts_three_times_over() {
    let mut layer = dense_layer(2, &[0.0; 6], &[0.0; 12]);
    layer.diag = Some(bits(&[1.0, 2.0, 3.0, 4.0, 5.0, 6.0]));
    let out = layer.compute(&samples(&[10.0, 100.0]));
    assert_eq!(plain(&out), vec![10.0, 200.0, 30.0, 400.0, 50.0, 600.0]);
}

#[test]
fn a_convolution_remembers_its_input() {
    let layer = dense_layer(3, &[0.0], &[1.0, 10.0, 100.0]);
    let mut mem = samples(&[1.0, 2.0]);
    let mut step = |x: f32| compute_conv1d(&layer, &mut mem, &[F32(x)], 1, Activation::Linear)[0].0;
    assert_eq!(step(3.0), 321.0);
    assert_eq!(step(4.0), 432.0);
    assert_eq!(step(5.0), 543.0);
}

#[test]
fn a_recurrent_unit() {
    // One neuron; the outputs are the update gate, the reset gate and the
    // candidate.
    let input = dense_layer(1, &[0.25, -0.5, 0.125], &[1.0, 2.0, 3.0]);
    let recurrent = dense_layer(1, &[0.5, 0.75, -0.25], &[-1.0, 0.5, 2.0]);
    let mut state = samples(&[0.5]);
    compute_gru(&input, &recurrent, &mut state, &samples(&[2.0]));
    let sigmoid = |x: f32| 0.5 + 0.5 * tanh_by_hand(0.5 * x);
    let z = sigmoid((0.25 + 2.0) + (0.5 - 0.5));
    let r = sigmoid((-0.5 + 4.0) + (0.75 + 0.25));
    let h = tanh_by_hand((0.125 + 6.0) + (-0.25 + 1.0) * r);
    assert_eq!(state[0].0, z * 0.5 + (1.0 - z) * h);
}

// --- 8-bit weights ----------------------------------------------------------

#[test]
fn rounding_to_a_byte() {
    for (x, q) in [
        (0.0, 0),
        (0.5, 1),
        (-0.5, -1),
        (1.49, 1),
        (126.6, 127),
        (127.5, 127),
        (1e9, 127),
        (-1e9, -127),
        (-127.5, -127),
    ] {
        assert_eq!(quant(F32(x)), q);
    }
}

fn q8(layer: &LinearLayer) -> (Vec<i8>, Vec<f32>) {
    match &layer.weights {
        Weights::Q8 { w, scale } => {
            (w.clone(), scale.iter().map(|b| f32::from_bits(*b)).collect())
        }
        Weights::Float(_) => panic!("the layer is not quantized"),
    }
}

#[test]
fn a_quantized_dense_layer() {
    // The second output has no weights at all.
    let mut layer = dense_layer(3, &[0.5, -1.0], &[1.27, 0.0, -0.635, 0.0, 0.004, 0.0]);
    layer.quantize::<F32>();
    let (w, scale) = q8(&layer);
    assert_eq!(w, vec![127, 0, -64, 0, 0, 0]);
    assert_eq!(scale, vec![1.27f32 / 127.0, 0.0]);
    let out = layer.compute(&samples(&[1.0, 1.0, 1.0]));
    assert_eq!(plain(&out), vec![0.5 + 63.0 * (1.27f32 / 127.0), -1.0]);
    // Weights that are 8-bit already stay.
    layer.quantize::<F32>();
    assert_eq!(q8(&layer), (w, scale));
}

#[test]
fn a_quantized_sparse_layer() {
    let mut layer = sparse_test_layer();
    layer.quantize::<F32>();
    let (w, scale) = q8(&layer);
    for row in 0..8 {
        let peak = (0..8)
            .map(|c| ((8 * c + row) as f32 - 20.0).abs())
            .fold(0.0f32, f32::max);
        assert_eq!(scale[row], peak / 127.0);
    }
    for k in 0..64 {
        let s = scale[k % 8];
        let exact = k as f32 - 20.0;
        assert!((w[k] as f32 * s - exact).abs() <= 0.5001 * s);
    }
    let x = samples(&[1.0, -2.0, 3.0, 0.5, 1.0, 0.0, -1.0, 2.0]);
    let full = sparse_test_layer().compute(&x);
    let small = layer.compute(&x);
    for (a, b) in full.iter().zip(&small) {
        assert!(close(a.0, b.0, 2.0));
    }
}

// --- raw audio --------------------------------------------------------------

#[test]
fn samples_as_pairs_of_bytes() {
    let bytes = [0x01, 0x00, 0xff, 0xff, 0x00, 0x80, 0xff, 0x7f, 0x34, 0x12, 0x99];
    let x = plain(&decode::<F32>(&bytes, true));
    assert_eq!(x, vec![1.0, -1.0, -32768.0, 32767.0, 0x1234 as f32]);
    let x = plain(&decode::<F32>(&bytes, false));
    assert_eq!(x, vec![256.0, -1.0, 128.0, -129.0, 0x3412 as f32]);
}

#[test]
fn fractions_are_dropped_and_large_samples_limited() {
    let x = samples(&[1.9, -1.9, 40000.0, -40000.0, 0.0, f32::NAN]);
    let expected: [i16; 6] = [1, -1, 32767, -32768, 0, 0];
    let little: Vec<u8> = expected.iter().flat_map(|v| v.to_le_bytes()).collect();
    let big: Vec<u8> = expected.iter().flat_map(|v| v.to_be_bytes()).collect();
    assert_eq!(encode(&x, true), little);
    assert_eq!(encode(&x, false), big);
}

#[test]
fn raw_audio_survives_a_round_trip() {
    let bytes: Vec<u8> = (0..=65535u16).flat_map(|v| v.to_le_bytes()).collect();
    for little in [true, false] {
        assert_eq!(encode(&decode::<F32>(&bytes, little), little), bytes);
    }
}

// --- the denoiser -----------------------------------------------------------

fn model_record(blob: &mut Vec<u8>, name: &str, kind: i32, payload: &[u8]) {
    blob.extend_from_slice(b"DNNw");
    blob.extend_from_slice(&0i32.to_le_bytes());
    blob.extend_from_slice(&kind.to_le_bytes());
    blob.extend_from_slice(&(payload.len() as i32).to_le_bytes());
    blob.extend_from_slice(&(payload.len() as i32).to_le_bytes());
    let mut field = [0u8; 44];
    field[..name.len()].copy_from_slice(name.as_bytes());
    blob.extend_from_slice(&field);
    blob.extend_from_slice(payload);
}

/// A model with random weights; every group of eight rows of a sparse layer has
/// two blocks.
fn random_model(seed: u32) -> RnnModel {
    let mut next = noise(seed);
    let mut floats = |n: usize, scale: f32| -> Vec<u8> {
        (0..n).flat_map(|_| (scale * next()).to_le_bytes()).collect()
    };
    let mut blob = Vec::new();
    for (name, inputs, outputs) in
        [("conv1", 195, 128), ("conv2", 384, 384), ("dense_out", 1536, 32), ("vad_dense", 1536, 1)]
    {
        let bias = floats(outputs, 0.5);
        let w = floats(inputs * outputs, 0.2);
        model_record(&mut blob, &format!("{name}_bias"), 0, &bias);
        model_record(&mut blob, &format!("{name}_weights_float"), 0, &w);
    }
    for g in 1..=3 {
        for part in ["input", "recurrent"] {
            let mut idx: Vec<u8> = Vec::new();
            for group in 0..144i32 {
                for v in [2, 4 * ((7 * group) % 96), 4 * ((11 * group + 5) % 96)] {
                    idx.extend_from_slice(&v.to_le_bytes());
                }
            }
            let bias = floats(1152, 0.5);
            let w = floats(288 * 32, 0.5);
            model_record(&mut blob, &format!("gru{g}_{part}_bias"), 0, &bias);
            model_record(&mut blob, &format!("gru{g}_{part}_weights_float"), 0, &w);
            model_record(&mut blob, &format!("gru{g}_{part}_weights_idx"), 1, &idx);
        }
        let diag = floats(1152, 0.5);
        model_record(&mut blob, &format!("gru{g}_recurrent_weights_diag"), 0, &diag);
    }
    let model = RnnModel::from_bytes(&blob).unwrap();
    assert!(model.columns_in_range());
    model
}

fn noisy_frames(n: usize) -> Vec<[F32; FRAME_SIZE]> {
    let mut rng = noise(42);
    (0..n)
        .map(|f| {
            let mut frame = [F32(0.0); FRAME_SIZE];
            for (i, s) in frame.iter_mut().enumerate() {
                *s = F32(4000.0 * ((f * FRAME_SIZE + i) as f32 * 0.04).sin() + 1500.0 * rng());
            }
            frame
        })
        .collect()
}

fn run(mut st: DenoiseState<F32>, frames: &[[F32; FRAME_SIZE]]) -> Vec<f32> {
    let mut out = [F32(0.0); FRAME_SIZE];
    let mut acc = Vec::new();
    for f in frames {
        st.process_frame(&mut out, f);
        acc.extend(plain(&out));
    }
    acc
}

fn denoiser(seed: u32) -> DenoiseState<F32> {
    DenoiseState::with_model(Arc::new(random_model(seed)))
}

#[test]
fn deterministic_across_instances() {
    let frames = noisy_frames(30);
    let a = run(denoiser(1), &frames);
    let b = run(denoiser(1), &frames);
    assert_eq!(a, b, "two fresh denoisers must produce identical output");
}

#[test]
fn with_model_matches_default() {
    // Denoisers that share a model and tables must behave exactly like one
    // with its own.
    let frames = noisy_frames(20);
    let default_out = run(denoiser(1), &frames);
    let model = Arc::new(random_model(1));
    let common = Arc::new(Common::new());
    let custom_out = run(DenoiseState::with_model(model.clone()), &frames);
    assert_eq!(default_out, custom_out);
    for _ in 0..2 {
        let shared = DenoiseState::with_tables(model.clone(), common.clone());
        assert_eq!(default_out, run(shared, &frames));
    }
}

#[test]
fn calls_of_other_denoisers_do_not_matter() {
    let frames = noisy_frames(6);
    let alone = run(denoiser(1), &frames);
    let model = Arc::new(random_model(1));
    let mut one = DenoiseState::with_model(model.clone());
    let mut other = DenoiseState::with_model(model);
    let mut third = denoiser(7);
    let mut out = [F32(0.0); FRAME_SIZE];
    let mut got = Vec::new();
    for (k, f) in frames.iter().enumerate() {
        third.process_frame(&mut out, f);
        one.process_frame(&mut out, f);
        got.extend(plain(&out));
        other.process_frame(&mut out, &frames[5 - k]);
    }
    assert_eq!(got, alone);
}

#[test]
fn silence_is_stable() {
    // All-zero input must not panic and must stay (near) silent.
    let mut st = denoiser(1);
    let zero = [F32(0.0); FRAME_SIZE];
    let mut out = [F32(0.0); FRAME_SIZE];
    for _ in 0..50 {
        let vad = st.process_frame(&mut out, &zero);
        assert!(vad.0.is_finite());
    }
    let peak = out.iter().fold(0.0f32, |m, &x| m.max(x.0.abs()));
    assert!(peak < 1.0, "silence produced non-trivial output: {peak}");
}

#[test]
fn output_finite() {
    let frames = noisy_frames(40);
    let out = run(denoiser(1), &frames);
    assert!(out.iter().all(|x| x.is_finite()));
}

#[test]
fn the_first_output_is_zero() {
    let frames = noisy_frames(2);
    let out = run(denoiser(2), &frames);
    assert!(out[..FRAME_SIZE].iter().all(|x| *x == 0.0));
    assert!(out[FRAME_SIZE..].iter().any(|x| *x != 0.0));
}

#[test]
fn the_probability_of_speech_is_between_zero_and_one() {
    let mut st = denoiser(3);
    let mut out = [F32(0.0); FRAME_SIZE];
    for f in noisy_frames(10) {
        let vad = st.process_frame(&mut out, &f).0;
        assert!(vad > 0.0 && vad < 1.0, "{vad}");
    }
}

#[test]
fn only_the_first_samples_of_longer_buffers_are_used() {
    let frames = noisy_frames(3);
    let mut short = denoiser(4);
    let mut long = denoiser(4);
    for f in &frames {
        let mut input = f.to_vec();
        input.extend(vec![F32(f32::NAN); 20]);
        let mut a = [F32(0.0); FRAME_SIZE];
        let mut b = vec![F32(77.0); FRAME_SIZE + 20];
        let va = short.process_frame(&mut a, f);
        let vb = long.process_frame(&mut b, &input);
        assert_eq!(va, vb);
        assert_eq!(plain(&a), plain(&b[..FRAME_SIZE]));
        assert!(b[FRAME_SIZE..].iter().all(|x| x.0 == 77.0));
    }
}

#[test]
fn silent_frames_pass_unchanged() {
    // A signal that is too weak to count comes out filtered, two frames later,
    // whatever the model.
    let mut next = noise(6);
    let frames: Vec<[F32; FRAME_SIZE]> = (0..6)
        .map(|_| {
            let mut f = [F32(0.0); FRAME_SIZE];
            for s in f.iter_mut() {
                *s = F32(0.5 * next());
            }
            f
        })
        .collect();
    let out = run(denoiser(5), &frames);
    assert_eq!(out, run(denoiser(6), &frames));
    let mut mem = (F32(0.0), F32(0.0));
    let filtered: Vec<f32> = frames.iter().flat_map(|f| plain(&high_pass(&mut mem, f))).collect();
    for i in 0..4 * FRAME_SIZE {
        let y = out[2 * FRAME_SIZE + i];
        assert!(close(y, filtered[i], 1e-5), "{y} and {}", filtered[i]);
    }
}

#[test]
fn the_denoiser_attenuates_and_remembers() {
    // The gains are below one, so that the network takes energy out, and the
    // same frame fares differently after a different past.
    let frames = noisy_frames(12);
    let out = run(denoiser(7), &frames);
    let energy = |x: &[f32]| x.iter().map(|v| (*v as f64).powi(2)).sum::<f64>();
    let input: Vec<f32> = frames.iter().flat_map(|f| plain(f)).collect();
    assert!(energy(&out[3 * FRAME_SIZE..]) < energy(&input[3 * FRAME_SIZE..]));
    assert_ne!(
        out[4 * FRAME_SIZE..5 * FRAME_SIZE],
        run(denoiser(7), &frames[2..])[2 * FRAME_SIZE..3 * FRAME_SIZE]
    );
}

#[test]
fn what_the_network_remembers_is_bounded() {
    let model = random_model(9);
    let mut st = RnnState::<F32>::new();
    let mut next = noise(23);
    for _ in 0..10 {
        let x: Vec<F32> = (0..NB_FEATURES).map(|_| F32(50.0 * next())).collect();
        let (gains, vad) = compute_rnn(&model, &mut st, &x);
        for g in gains.iter().chain([&vad]) {
            assert!((0.0..=1.0).contains(&g.0));
        }
        for state in [&st.conv2_state, &st.gru1_state, &st.gru2_state, &st.gru3_state] {
            assert!(state.iter().all(|s| (-1.0..=1.0).contains(&s.0)));
        }
    }
}

#[test]
fn a_quantized_model_is_close_to_the_full_one() {
    let full = random_model(8);
    let small = random_model(8).quantized::<F32>();
    assert!(small.columns_in_range());
    for layer in [
        &small.conv2,
        &small.gru1_input,
        &small.gru1_recurrent,
        &small.gru2_input,
        &small.gru2_recurrent,
        &small.gru3_input,
        &small.gru3_recurrent,
    ] {
        let (w, scale) = q8(layer);
        assert_eq!(scale.len(), layer.nb_outputs);
        assert!(w.iter().all(|q| *q >= -127));
    }
    for layer in [&small.conv1, &small.dense_out, &small.vad_dense] {
        assert!(matches!(layer.weights, Weights::Float(_)));
    }
    let mut next = noise(1);
    let mut a = RnnState::<F32>::new();
    let mut b = RnnState::<F32>::new();
    for _ in 0..3 {
        let x: Vec<F32> = (0..NB_FEATURES).map(|_| F32(4.0 * next())).collect();
        let (ga, va) = compute_rnn(&full, &mut a, &x);
        let (gb, vb) = compute_rnn(&small, &mut b, &x);
        assert!(close(va.0, vb.0, 0.05));
        for (p, q) in ga.iter().zip(&gb) {
            assert!(p.0 >= 0.0 && p.0 <= 1.0);
            assert!(close(p.0, q.0, 0.05), "{} and {}", p.0, q.0);
        }
    }
}
