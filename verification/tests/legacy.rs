//! The smaller network and its denoiser, run on 32-bit floating-point samples.

use std::sync::Arc;

use realfft::num_complex::Complex;
use realfft::RealFftPlanner;
use rnnoise::arith::{Real, Sample};
use rnnoise::common::high_pass;
use rnnoise::fft::Cpx;
use rnnoise::legacy::{Act, DenseLayer, GruLayer, RnnModelV1, NB_BANDS, NB_FEATURES};
use rnnoise::legacy_denoise::{
    compute_band_corr, interp_band_gain, DenoiseStateV1, LegacyCommon, EBAND5MS,
};
use rnnoise::legacy_net::{
    i8_dot, quantize_dyn, sigmoid_approx, tansig_approx, RnnStateV1, TANSIG_TABLE,
};
use rnnoise::weights::ModelError;
use rnnoise::{FRAME_SIZE, FREQ_SIZE, WINDOW_SIZE};

#[derive(Clone, Copy, Debug, PartialEq)]
struct F32(f32);

#[derive(Clone, Copy, Debug, PartialEq)]
struct F64(f64);

impl Real for F64 {
    fn ratio(n: i64, d: i64) -> Self {
        F64(n as f64 / d as f64)
    }
    fn pi() -> Self {
        F64(std::f64::consts::PI)
    }
    fn plus(self, rhs: Self) -> Self {
        F64(self.0 + rhs.0)
    }
    fn minus(self, rhs: Self) -> Self {
        F64(self.0 - rhs.0)
    }
    fn times(self, rhs: Self) -> Self {
        F64(self.0 * rhs.0)
    }
    fn over(self, rhs: Self) -> Self {
        F64(self.0 / rhs.0)
    }
    fn negated(self) -> Self {
        F64(-self.0)
    }
    fn magnitude(self) -> Self {
        F64(self.0.abs())
    }
    fn larger(self, rhs: Self) -> Self {
        F64(self.0.max(rhs.0))
    }
    fn smaller(self, rhs: Self) -> Self {
        F64(self.0.min(rhs.0))
    }
    fn root(self) -> Self {
        F64(self.0.sqrt())
    }
    fn log10(self) -> Self {
        F64(self.0.log10())
    }
    fn sine(self) -> Self {
        F64(self.0.sin())
    }
    fn cosine(self) -> Self {
        F64(self.0.cos())
    }
    fn floored(self) -> Self {
        F64(self.0.floor())
    }
    fn below(self, rhs: Self) -> bool {
        self.0 < rhs.0
    }
    fn at_most(self, rhs: Self) -> bool {
        self.0 <= rhs.0
    }
    fn equals(self, rhs: Self) -> bool {
        self.0 == rhs.0
    }
}

impl Real for F32 {
    fn ratio(n: i64, d: i64) -> Self {
        F32((n as f64 / d as f64) as f32)
    }
    fn pi() -> Self {
        F32(std::f32::consts::PI)
    }
    fn plus(self, rhs: Self) -> Self {
        F32(self.0 + rhs.0)
    }
    fn minus(self, rhs: Self) -> Self {
        F32(self.0 - rhs.0)
    }
    fn times(self, rhs: Self) -> Self {
        F32(self.0 * rhs.0)
    }
    fn over(self, rhs: Self) -> Self {
        F32(self.0 / rhs.0)
    }
    fn negated(self) -> Self {
        F32(-self.0)
    }
    fn magnitude(self) -> Self {
        F32(self.0.abs())
    }
    fn larger(self, rhs: Self) -> Self {
        F32(self.0.max(rhs.0))
    }
    fn smaller(self, rhs: Self) -> Self {
        F32(self.0.min(rhs.0))
    }
    fn root(self) -> Self {
        F32(self.0.sqrt())
    }
    fn log10(self) -> Self {
        F32(self.0.log10())
    }
    fn sine(self) -> Self {
        F32(self.0.sin())
    }
    fn cosine(self) -> Self {
        F32(self.0.cos())
    }
    fn floored(self) -> Self {
        F32(self.0.floor())
    }
    fn below(self, rhs: Self) -> bool {
        self.0 < rhs.0
    }
    fn at_most(self, rhs: Self) -> bool {
        self.0 <= rhs.0
    }
    fn equals(self, rhs: Self) -> bool {
        self.0 == rhs.0
    }
}

impl Sample for F32 {
    type Wide = F64;
    fn widen(self) -> F64 {
        F64(self.0 as f64)
    }
    fn narrow(w: F64) -> Self {
        F32(w.0 as f32)
    }
    fn from_bits(bits: u32) -> Self {
        F32(f32::from_bits(bits))
    }
    fn to_bits(self) -> u32 {
        self.0.to_bits()
    }
    fn rounded(self) -> i32 {
        self.0.round() as i32
    }
    fn index(self) -> usize {
        self.0 as usize
    }
    fn short(self) -> i16 {
        self.0 as i16
    }
}

fn plain(x: &[F32]) -> Vec<f32> {
    x.iter().map(|v| v.0).collect()
}

fn samples(x: &[f32]) -> Vec<F32> {
    x.iter().map(|&v| F32(v)).collect()
}

fn close(a: f32, b: f32, tolerance: f32) -> bool {
    (a - b).abs() <= tolerance
}

fn noise(seed: u32) -> impl FnMut() -> f32 {
    let mut state = seed;
    move || {
        state = state.wrapping_mul(1664525).wrapping_add(1013904223);
        (state >> 8) as f32 / 16_777_216.0 - 0.5
    }
}

// --- loading ----------------------------------------------------------------

/// The neurons of the dense layer and of the three recurrent layers.
const NEURONS: [usize; 4] = [6, 5, 4, 7];

/// A layer: its dimensions, its activation, and `gates` times as many weights.
fn layer(out: &mut Vec<u8>, next: &mut dyn FnMut() -> f32, inputs: usize, neurons: usize, act: u8, gates: usize) {
    out.extend_from_slice(&[inputs as u8, neurons as u8, act]);
    let mut count = gates * neurons * inputs + gates * neurons;
    if gates == 3 {
        count += gates * neurons * neurons;
    }
    for _ in 0..count {
        out.push((240.0 * next()) as i8 as u8);
    }
}

/// A model with random weights, as it is stored.
fn stored(neurons: [usize; 4]) -> Vec<u8> {
    let [d, v, n, h] = neurons;
    let mut next = noise(17);
    let mut out = Vec::new();
    layer(&mut out, &mut next, 42, d, 0, 1);
    layer(&mut out, &mut next, d, v, 2, 3);
    layer(&mut out, &mut next, 42 + d + v, n, 2, 3);
    layer(&mut out, &mut next, 42 + v + n, h, 2, 3);
    layer(&mut out, &mut next, h, 22, 1, 1);
    layer(&mut out, &mut next, v, 1, 1, 1);
    out
}

fn refused(bytes: &[u8]) -> bool {
    matches!(RnnModelV1::from_bytes(bytes), Err(ModelError::Malformed))
}

#[test]
fn a_stored_model_loads() {
    let bytes = stored(NEURONS);
    let m = RnnModelV1::from_bytes(&bytes).unwrap();
    assert!(m.has_neurons());
    assert_eq!((m.input_dense.nb_inputs, m.input_dense.nb_neurons), (42, 6));
    assert_eq!((m.vad_gru.nb_inputs, m.vad_gru.nb_neurons), (6, 5));
    assert_eq!((m.noise_gru.nb_inputs, m.noise_gru.nb_neurons), (53, 4));
    assert_eq!((m.denoise_gru.nb_inputs, m.denoise_gru.nb_neurons), (51, 7));
    assert_eq!((m.denoise_output.nb_inputs, m.denoise_output.nb_neurons), (7, 22));
    assert_eq!((m.vad_output.nb_inputs, m.vad_output.nb_neurons), (5, 1));
    assert_eq!(m.input_dense.activation, Act::Tanh);
    assert_eq!(m.vad_gru.activation, Act::Relu);
    assert_eq!(m.vad_output.activation, Act::Sigmoid);
    // Dense weights stand as they are stored, bytes above 127 are negative.
    for (k, w) in m.input_dense.weights.iter().enumerate() {
        assert_eq!(*w, bytes[3 + k] as i8);
    }
    assert_eq!(m.input_dense.bias.len(), 6);
    assert_eq!(m.input_dense.bias[0], bytes[3 + 252] as i8);
    // The input weights of a recurrent layer are turned round.
    let start = 3 + 252 + 6 + 3;
    for input in 0..6 {
        for output in 0..15 {
            assert_eq!(
                m.vad_gru.input_weights_t[output * 6 + input],
                bytes[start + input * 15 + output] as i8
            );
        }
    }
    assert_eq!(m.vad_gru.recurrent_weights[0], bytes[start + 90] as i8);
    assert_eq!(m.vad_gru.bias[14], bytes[start + 90 + 75 + 14] as i8);
}

#[test]
fn a_damaged_model_is_refused() {
    let good = stored(NEURONS);
    assert!(refused(&[]));
    for cut in [1, 2, 3, 100, good.len() - 1] {
        assert!(refused(&good[..cut]));
    }
    // Something behind the last layer.
    let mut long = good.clone();
    long.push(0);
    assert!(refused(&long));
    // An unknown activation, a negative dimension.
    for (at, byte) in [(2usize, 3u8), (2, 255), (0, 200), (1, 128)] {
        let mut bad = good.clone();
        bad[at] = byte;
        assert!(refused(&bad));
    }
}

#[test]
fn layers_that_do_not_fit_together_are_refused() {
    let build = |dims: [(usize, usize, usize); 6]| {
        let mut next = noise(1);
        let mut out = Vec::new();
        for (inputs, neurons, gates) in dims {
            layer(&mut out, &mut next, inputs, neurons, 0, gates);
        }
        out
    };
    let good = [(42, 6, 1), (6, 5, 3), (53, 4, 3), (51, 7, 3), (7, 22, 1), (5, 1, 1)];
    assert!(!refused(&build(good)));
    for k in 0..6 {
        let mut bad = good;
        bad[k].0 += 1;
        assert!(refused(&build(bad)), "inputs of layer {k}");
        let mut bad = good;
        bad[k].1 += 1;
        assert!(refused(&build(bad)), "neurons of layer {k}");
    }
}

#[test]
fn a_model_may_have_empty_layers() {
    let m = RnnModelV1::from_bytes(&stored([6, 5, 0, 7])).unwrap();
    assert!(!m.has_neurons());
}

// --- the network ------------------------------------------------------------

#[test]
fn the_table_holds_the_hyperbolic_tangent() {
    assert_eq!(TANSIG_TABLE.len(), 201);
    for (i, t) in TANSIG_TABLE.iter().enumerate() {
        let exact = (i as f64 * 0.04).tanh();
        assert!((*t as f64 / 1e6 - exact).abs() < 2e-6, "entry {i}");
        // Its entries are the numbers with six decimals.
        let text = format!("{}.{:06}", t / 1_000_000, t % 1_000_000);
        assert_eq!(F32::ratio(*t, 1_000_000).0, text.parse::<f32>().unwrap());
    }
}

#[test]
fn table_activations() {
    assert_eq!(tansig_approx(F32(0.0)).0, 0.0);
    assert_eq!(tansig_approx(F32(8.0)).0, 1.0);
    assert_eq!(tansig_approx(F32(-8.0)).0, -1.0);
    assert_eq!(tansig_approx(F32(f32::NAN)).0, 1.0);
    // The entry for 0.4, corrected for how far ten steps are from it.
    let (y, d) = (0.379949f32, 0.4f32 - 0.04f32 * 10.0);
    let at = y + d * (1.0 - y * y) * (1.0 - y * d);
    assert_eq!(tansig_approx(F32(0.4)).0, at);
    for i in -199..200 {
        let x = i as f32 / 20.0;
        assert!(close(tansig_approx(F32(x)).0, x.tanh(), 1e-5), "at {x}");
        assert_eq!(tansig_approx(F32(-x)).0, -tansig_approx(F32(x)).0);
        assert!(close(sigmoid_approx(F32(x)).0, 1.0 / (1.0 + (-x).exp()), 1e-5));
    }
    assert_eq!(sigmoid_approx(F32(0.0)).0, 0.5);
    assert_eq!(Act::Relu.apply(F32(-2.0)).0, 0.0);
    assert_eq!(Act::Relu.apply(F32(2.5)).0, 2.5);
    assert_eq!(Act::Tanh.apply(F32(0.4)).0, at);
    assert_eq!(Act::Sigmoid.apply(F32(0.8)).0, 0.5 + 0.5 * at);
    assert_eq!(Act::from_i8(0), Some(Act::Tanh));
    assert_eq!(Act::from_i8(1), Some(Act::Sigmoid));
    assert_eq!(Act::from_i8(2), Some(Act::Relu));
    assert_eq!(Act::from_i8(3), None);
    assert_eq!(Act::from_i8(-1), None);
}

#[test]
fn integer_inner_products() {
    assert_eq!(i8_dot(&[], &[]), 0);
    assert_eq!(i8_dot(&[1, -2, 3], &[4, 5, -6]), -24);
    assert_eq!(i8_dot(&[-128; 100], &[-128; 100]), 1_638_400);
    assert_eq!(i8_dot(&[-128; 100], &[127; 100]), -1_625_600);
}

#[test]
fn vectors_as_bytes() {
    let (q, unit) = quantize_dyn(&samples(&[0.5, -2.0, 1.0, 0.0]));
    assert_eq!(q, vec![32, -127, 64, 0]);
    assert_eq!(unit.0, 2.0 / 127.0);
    let (q, unit) = quantize_dyn(&samples(&[0.0, 0.0]));
    assert_eq!((q, unit.0), (vec![0, 0], 0.0));
    let (q, unit) = quantize_dyn::<F32>(&[]);
    assert_eq!((q.len(), unit.0), (0, 0.0));
}

#[test]
fn a_dense_layer_of_bytes() {
    let l = DenseLayer {
        bias: vec![64, -128],
        weights: vec![1, 2, 3, 4, 5, 6],
        nb_inputs: 3,
        nb_neurons: 2,
        activation: Act::Relu,
    };
    let out = plain(&l.compute(&samples(&[10.0, 20.0, 30.0])));
    assert_eq!(out, vec![284.0 / 256.0, (-128.0 + 280.0) / 256.0]);
}

#[test]
fn a_recurrent_layer_of_bytes() {
    // One neuron; the input is its own largest magnitude, so that rounding it
    // changes nothing.
    let l = GruLayer {
        bias: vec![10, -20, 30],
        input_weights_t: vec![100, -50, 25],
        recurrent_weights: vec![64, 32, -16],
        nb_inputs: 1,
        nb_neurons: 1,
        activation: Act::Tanh,
    };
    let mut state = samples(&[0.5]);
    l.compute(&mut state, &samples(&[2.0]));
    let unit = 2.0f32 / 127.0;
    let share = |w: i32| (w * 127) as f32 * unit;
    let scale = 1.0f32 / 256.0;
    let z = sigmoid_approx(F32((10.0 + share(100) + 64.0 * 0.5) * scale)).0;
    let r = 0.5 * sigmoid_approx(F32((-20.0 + share(-50) + 32.0 * 0.5) * scale)).0;
    let h = tansig_approx(F32((30.0 + share(25) + -16.0 * r) * scale)).0;
    assert_eq!(state[0].0, z * 0.5 + (1.0 - z) * h);
}

#[test]
fn the_network_is_a_chain_of_layers() {
    let m = RnnModelV1::from_bytes(&stored(NEURONS)).unwrap();
    let mut next = noise(4);
    let x: Vec<F32> = (0..NB_FEATURES).map(|_| F32(next())).collect();
    let mut st = RnnStateV1::new(&m);
    let (gains, vad) = st.compute(&m, &x);
    assert_eq!(gains.len(), NB_BANDS);
    let d = m.input_dense.compute(&x);
    let mut v = samples(&[0.0; 5]);
    m.vad_gru.compute(&mut v, &d);
    let mut n = samples(&[0.0; 4]);
    m.noise_gru.compute(&mut n, &[&d[..], &v[..], &x[..]].concat());
    let mut h = samples(&[0.0; 7]);
    m.denoise_gru.compute(&mut h, &[&v[..], &n[..], &x[..]].concat());
    assert_eq!(gains, m.denoise_output.compute(&h));
    assert_eq!(vad, m.vad_output.compute(&v)[0]);
    assert_eq!(st.vad_gru_state, v);
    assert_eq!(st.noise_gru_state, n);
    assert_eq!(st.denoise_gru_state, h);
}

// --- the denoiser -----------------------------------------------------------

#[test]
fn bands_of_the_smaller_network() {
    let zero = Cpx::new(F32(0.0), F32(0.0));
    let mut x = vec![zero; FREQ_SIZE];
    x[EBAND5MS[5]] = Cpx::new(F32(3.0), F32(4.0));
    let e = plain(&compute_band_corr(&x, &x));
    for (b, v) in e.iter().enumerate() {
        assert_eq!(*v, if b == 5 { 25.0 } else { 0.0 });
    }
    // The outermost bands count twice.
    let mut x = vec![zero; FREQ_SIZE];
    x[0] = Cpx::new(F32(1.0), F32(0.0));
    assert_eq!(compute_band_corr(&x, &x)[0].0, 2.0);
    let mut x = vec![zero; FREQ_SIZE];
    x[399] = Cpx::new(F32(1.0), F32(0.0));
    let e = plain(&compute_band_corr(&x, &x));
    let f = 87.0f32 / 88.0;
    assert_eq!((e[20], e[21]), (1.0 - f, 2.0 * f));
    let gains: Vec<F32> = (0..NB_BANDS).map(|b| F32(b as f32)).collect();
    let g = plain(&interp_band_gain(&gains));
    for b in 0..NB_BANDS - 1 {
        assert_eq!(g[EBAND5MS[b]], b as f32);
    }
    assert_eq!(g[2], 0.5);
    assert!(g[400..].iter().all(|v| *v == 0.0));
}

#[test]
fn the_window_is_normalised() {
    let common = LegacyCommon::<F32>::new();
    // The energy of the window is that of one frame of ones.
    assert!(close(common.wnorm().0 * 480.0, 1.0, 1e-5));
    let ones = plain(&common.apply_window(&vec![F32(1.0); WINDOW_SIZE]));
    assert!(close(ones[479], 1.0, 1e-5) && ones[0] < 1e-5);
    let out = plain(&common.dct(&vec![F32(1.0); NB_BANDS]));
    assert!(close(out[0], (22.0f64 * (1.0f64 / 22.0).sqrt()) as f32, 1e-4));
}

/// The denoiser with the transforms of an outside library.
struct Pipeline {
    st: DenoiseStateV1<F32>,
    r2c: Arc<dyn realfft::RealToComplex<f32>>,
    c2r: Arc<dyn realfft::ComplexToReal<f32>>,
}

impl Pipeline {
    fn new(neurons: [usize; 4]) -> Self {
        let model = Arc::new(RnnModelV1::from_bytes(&stored(neurons)).unwrap());
        assert!(model.has_neurons());
        let mut planner = RealFftPlanner::<f32>::new();
        Pipeline {
            st: DenoiseStateV1::with_model(model),
            r2c: planner.plan_fft_forward(WINDOW_SIZE),
            c2r: planner.plan_fft_inverse(WINDOW_SIZE),
        }
    }

    fn frame(&mut self, input: &[F32]) -> (Vec<f32>, f32) {
        let forward = |x: Vec<F32>| {
            let mut out = self.r2c.make_output_vec();
            self.r2c.process(&mut plain(&x), &mut out).unwrap();
            out.iter().map(|c| Cpx::new(F32(c.re), F32(c.im))).collect()
        };
        let inverse = |y: Vec<Cpx<F32>>| {
            // The transform insists on real first and last bins.
            let mut y: Vec<Complex<f32>> = y.iter().map(|c| Complex::new(c.r.0, c.i.0)).collect();
            let mut signal = self.c2r.make_output_vec();
            self.c2r.process(&mut y, &mut signal).unwrap();
            samples(&signal)
        };
        let mut out = vec![F32(0.0); FRAME_SIZE + 1];
        out[FRAME_SIZE] = F32(7.0);
        let vad = self.st.process_frame(&mut out, input, forward, inverse);
        assert_eq!(out[FRAME_SIZE].0, 7.0);
        (plain(&out[..FRAME_SIZE]), vad.0)
    }
}

#[test]
fn weak_signals_pass_one_frame_later() {
    let mut pipeline = Pipeline::new(NEURONS);
    let mut next = noise(21);
    let mut mem = (F32(0.0), F32(0.0));
    let mut before = vec![0.0; FRAME_SIZE];
    for _ in 0..5 {
        let input: Vec<F32> = (0..FRAME_SIZE).map(|_| F32(0.2 * next())).collect();
        let (out, vad) = pipeline.frame(&input);
        assert_eq!(vad, 0.0);
        for (a, b) in out.iter().zip(&before) {
            assert!(close(*a, *b, 1e-5), "{a} and {b}");
        }
        before = plain(&high_pass(&mut mem, &input));
    }
}

#[test]
fn the_smaller_network_runs_on_speech_like_sound() {
    let mut a = Pipeline::new(NEURONS);
    let mut b = Pipeline::new(NEURONS);
    let mut next = noise(42);
    for f in 0..20 {
        let input: Vec<F32> = (0..FRAME_SIZE)
            .map(|i| F32(4000.0 * ((f * FRAME_SIZE + i) as f32 * 0.04).sin() + 1500.0 * next()))
            .collect();
        let (out, vad) = a.frame(&input);
        assert!(out.iter().all(|x| x.is_finite()));
        assert!((0.0..=1.0).contains(&vad));
        // Two denoisers with one past do the same.
        assert_eq!((out, vad), b.frame(&input));
    }
}

#[test]
fn the_steps_of_a_frame() {
    let model = Arc::new(RnnModelV1::from_bytes(&stored(NEURONS)).unwrap());
    let mut st = DenoiseStateV1::<F32>::with_model(model);
    let input: Vec<F32> = (0..FRAME_SIZE).map(|i| F32((i % 50) as f32)).collect();
    let (x, p) = st.prepare(&input);
    // The end of the window is the filtered frame.
    let common = LegacyCommon::<F32>::new();
    let mut mem = (F32(0.0), F32(0.0));
    let mut two = vec![F32(0.0); FRAME_SIZE];
    two.extend(high_pass(&mut mem, &input));
    assert_eq!(x, common.apply_window(&two));
    assert_eq!(p.len(), WINDOW_SIZE);
    // A weak spectrum passes, normalised, with real ends.
    let weak = vec![Cpx::new(F32(0.5), F32(0.25)); FREQ_SIZE];
    let (y, vad) = st.suppress(&weak, &weak);
    let w = common.wnorm().0;
    assert_eq!(vad.0, 0.0);
    for (k, c) in y.iter().enumerate() {
        assert_eq!(c.r.0, 0.5 * w);
        let end = k == 0 || k == FREQ_SIZE - 1;
        assert_eq!(c.i.0, if end { 0.0 } else { 0.25 * w });
    }
    // The signal is halved, put under the window and added to what was left.
    let signal: Vec<F32> = (0..WINDOW_SIZE).map(|i| F32(2.0 * i as f32)).collect();
    let halved: Vec<F32> = (0..WINDOW_SIZE).map(|i| F32(i as f32)).collect();
    let windowed = plain(&common.apply_window(&halved));
    let mut out = vec![F32(0.0); FRAME_SIZE];
    st.synthesize(&signal, &mut out);
    assert_eq!(plain(&out), windowed[..FRAME_SIZE]);
    st.synthesize(&signal, &mut out);
    for i in 0..FRAME_SIZE {
        assert_eq!(out[i].0, windowed[i] + windowed[FRAME_SIZE + i]);
    }
}

#[test]
fn denoisers_of_the_smaller_network_share_tables() {
    let model = Arc::new(RnnModelV1::from_bytes(&stored(NEURONS)).unwrap());
    let common = Arc::new(LegacyCommon::new());
    let input: Vec<F32> = (0..FRAME_SIZE).map(|i| F32((i % 50) as f32)).collect();
    let mut own = DenoiseStateV1::with_model(model.clone());
    let mut shared = DenoiseStateV1::with_tables(model, common);
    for _ in 0..3 {
        assert_eq!(own.prepare(&input), shared.prepare(&input));
    }
}

/// A spectrum of noise.
fn noisy_spectrum(seed: u32) -> Vec<Cpx<F32>> {
    let mut next = noise(seed);
    (0..FREQ_SIZE).map(|_| Cpx::new(F32(1e5 * next()), F32(1e5 * next()))).collect()
}

#[test]
fn the_energy_of_the_bands_decides_on_silence() {
    let model = Arc::new(RnnModelV1::from_bytes(&stored(NEURONS)).unwrap());
    let w = LegacyCommon::<F32>::new().wnorm().0;
    let tone = |a: f32| {
        let mut x = vec![Cpx::new(F32(0.0), F32(0.0)); FREQ_SIZE];
        x[10] = Cpx::new(F32(a), F32(0.0));
        x
    };
    let unit: f32 = plain(&compute_band_corr(&tone(1.0), &tone(1.0))).iter().sum();
    for (energy, silent) in [(0.039f32, true), (0.041, false)] {
        let x = tone((energy / unit).sqrt() / w);
        let mut st = DenoiseStateV1::<F32>::with_model(model.clone());
        let (y, vad) = st.suppress(&x, &x);
        let passed = y[10].r.0 == x[10].r.0 * w;
        assert_eq!((passed, vad.0 == 0.0), (silent, silent));
    }
}

#[test]
fn silence_leaves_the_remembered_cepstra_alone() {
    let model = Arc::new(RnnModelV1::from_bytes(&stored(NEURONS)).unwrap());
    let weak = vec![Cpx::new(F32(0.5), F32(0.25)); FREQ_SIZE];
    let mut plainly = DenoiseStateV1::<F32>::with_model(model.clone());
    let mut paused = DenoiseStateV1::<F32>::with_model(model);
    // More frames than there are slots.
    for seed in 1..20 {
        let x = noisy_spectrum(seed);
        let p = noisy_spectrum(100 + seed);
        for _ in 0..seed % 3 {
            assert_eq!(paused.suppress(&weak, &weak).1, F32(0.0));
        }
        let (a, va) = plainly.suppress(&x, &p);
        let (b, vb) = paused.suppress(&x, &p);
        assert_eq!(va, vb);
        assert!(a.iter().zip(&b).all(|(c, d)| c.r == d.r && c.i == d.i));
    }
}
