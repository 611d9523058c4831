//! Running the smaller network: table-based activations, dense and recurrent
//! layers with 8-bit weights, and the wiring between them.

use vstd::prelude::*;
use vstd::slice::slice_subrange;
use crate::arith::{filled, Arith, Sample, SampleArith};
use crate::legacy::{
    Act, DenseLayer, DenseView, GruLayer, GruView, ModelView, RnnModelV1, NB_BANDS, NB_FEATURES,
};
use crate::quantize::quant;
use crate::quantize;
use crate::rnn::extend;

verus! {

/// The hyperbolic tangent of `i / 25`, in millionths.
pub const TANSIG_TABLE: [i64; 201] = [
    0, 39979, 79830, 119427, 158649, 197375, 235496, 272905,
    309507, 345214, 379949, 413644, 446244, 477700, 507977, 537050,
    564900, 591519, 616909, 641077, 664037, 685809, 706419, 725897,
    744277, 761594, 777888, 793199, 807569, 821040, 833655, 845456,
    856485, 866784, 876393, 885352, 893698, 901468, 908698, 915420,
    921669, 927473, 932862, 937863, 942503, 946806, 950795, 954492,
    957917, 961090, 964028, 966747, 969265, 971594, 973749, 975743,
    977587, 979293, 980869, 982327, 983675, 984921, 986072, 987136,
    988119, 989027, 989867, 990642, 991359, 992020, 992631, 993196,
    993718, 994199, 994644, 995055, 995434, 995784, 996108, 996407,
    996682, 996937, 997172, 997389, 997590, 997775, 997946, 998104,
    998249, 998384, 998508, 998623, 998728, 998826, 998916, 999000,
    999076, 999147, 999213, 999273, 999329, 999381, 999428, 999472,
    999513, 999550, 999585, 999617, 999646, 999673, 999699, 999722,
    999743, 999763, 999781, 999798, 999813, 999828, 999841, 999853,
    999865, 999875, 999885, 999893, 999902, 999909, 999916, 999923,
    999929, 999934, 999939, 999944, 999948, 999952, 999956, 999959,
    999962, 999965, 999968, 999970, 999973, 999975, 999977, 999978,
    999980, 999982, 999983, 999984, 999986, 999987, 999988, 999989,
    999990, 999990, 999991, 999992, 999992, 999993, 999994, 999994,
    999994, 999995, 999995, 999996, 999996, 999996, 999997, 999997,
    999997, 999997, 999997, 999998, 999998, 999998, 999998, 999998,
    999998, 999999, 999999, 999999, 999999, 999999, 999999, 999999,
    999999, 999999, 999999, 999999, 999999, 999999, 1000000, 1000000,
    1000000, 1000000, 1000000, 1000000, 1000000, 1000000, 1000000, 1000000,
    1000000,
];

/// Entry `i` of the table; the last entry stands for all beyond it.
pub open spec fn tansig_entry<S: Sample>(i: int) -> S {
    S::frac(
        TANSIG_TABLE@[if i < 200 {
            i
        } else {
            200
        }],
        1000000,
    )
}

/// The hyperbolic tangent of a number that is not negative: the nearest entry
/// of the table, corrected for the distance to it.
pub open spec fn tansig_near<S: Sample>(x: S) -> S {
    let i = (S::frac(1, 2) + S::num(25) * x).floor_of();
    let d = x - S::frac(4, 100) * i;
    let y = tansig_entry::<S>(i.whole() as int);
    let dy = S::unit() - y * y;
    y + d * dy * (S::unit() - y * d)
}

/// The hyperbolic tangent: one from 8 on, minus one down from -8.
pub open spec fn tansig_of<S: Sample>(x: S) -> S {
    if !x.lt_of(S::num(8)) {
        S::unit()
    } else if !S::num(-8).lt_of(x) {
        S::num(-1)
    } else if x.lt_of(S::nil()) {
        S::num(-1) * tansig_near(-x)
    } else {
        S::unit() * tansig_near(x)
    }
}

/// The logistic function, by way of the hyperbolic tangent.
pub open spec fn sigmoid_of<S: Sample>(x: S) -> S {
    let half = S::frac(1, 2);
    half + half * tansig_of(half * x)
}

/// An activation of one number.
pub open spec fn applied<S: Sample>(act: Act, x: S) -> S {
    match act {
        Act::Tanh => tansig_of(x),
        Act::Sigmoid => sigmoid_of(x),
        Act::Relu => x.max_of(S::nil()),
    }
}

/// Approximate the hyperbolic tangent.
pub fn tansig_approx<S: Sample>(x: S) -> (y: S)
    ensures
        S::functional() ==> y == tansig_of(x),
{
    let one = S::ratio(1, 1);
    if !x.below(S::ratio(8, 1)) {
        return one;
    }
    if !S::ratio(-8, 1).below(x) {
        return S::ratio(-1, 1);
    }
    let negative = x.below(S::ratio(0, 1));
    let a = if negative {
        x.negated()
    } else {
        x
    };
    let sign = if negative {
        S::ratio(-1, 1)
    } else {
        one
    };
    let i = S::ratio(1, 2).plus(S::ratio(25, 1).times(a)).floored();
    let d = a.minus(S::ratio(4, 100).times(i));
    let at = i.index();
    let k: usize = if at < 200 {
        at
    } else {
        200
    };
    let y = S::ratio(TANSIG_TABLE[k], 1000000);
    let dy = one.minus(y.times(y));
    let near = y.plus(d.times(dy).times(one.minus(y.times(d))));
    sign.times(near)
}

/// Approximate the logistic function.
pub fn sigmoid_approx<S: Sample>(x: S) -> (y: S)
    ensures
        S::functional() ==> y == sigmoid_of(x),
{
    let half = S::ratio(1, 2);
    half.plus(half.times(tansig_approx(half.times(x))))
}

impl Act {
    /// Apply the activation to one number.
    pub fn apply<S: Sample>(self, x: S) -> (y: S)
        ensures
            S::functional() ==> y == applied(self, x),
    {
        match self {
            Act::Tanh => tansig_approx(x),
            Act::Sigmoid => sigmoid_approx(x),
            Act::Relu => x.larger(S::ratio(0, 1)),
        }
    }
}

/// `init`, plus the first `m` inputs times their weights for output `k`: the
/// weights of an input lie `stride` apart, those of output `k` at `offset + k`.
pub open spec fn weighted_sum<S: Sample>(
    init: S,
    w: Seq<i8>,
    stride: int,
    offset: int,
    x: Seq<S>,
    m: nat,
) -> S
    decreases m,
{
    if m == 0 {
        init
    } else {
        weighted_sum(init, w, stride, offset, x, (m - 1) as nat) + S::num(
            w[(m - 1) * stride + offset] as int,
        ) * x[m - 1]
    }
}

/// Add the first `m` inputs times their weights to `init`.
fn add_weighted<S: Sample>(
    init: S,
    w: &Vec<i8>,
    stride: usize,
    offset: usize,
    x: &[S],
    m: usize,
) -> (s: S)
    requires
        offset < stride,
        m * stride <= w@.len(),
        m <= x@.len(),
    ensures
        S::functional() ==> s == weighted_sum(
            init,
            w@,
            stride as int,
            offset as int,
            x@,
            m as nat,
        ),
{
    let mut s = init;
    let mut j: usize = 0;
    while j < m
        invariant
            offset < stride,
            m * stride <= w@.len(),
            m <= x@.len(),
            j <= m,
            S::functional() ==> s == weighted_sum(
                init,
                w@,
                stride as int,
                offset as int,
                x@,
                j as nat,
            ),
        decreases m - j,
    {
        assert(j * stride + offset < m * stride && j * stride <= m * stride) by (nonlinear_arith)
            requires
                j < m,
                offset < stride,
        ;
        assert(w@.len() == w.len());
        s = s.plus(S::ratio(w[j * stride + offset] as i64, 1).times(x[j]));
        j += 1;
    }
    s
}

/// The factor by which 8-bit weights and biases are scaled.
pub open spec fn weights_scale<S: Sample>() -> S {
    S::frac(1, 256)
}

/// The outputs of a dense layer.
pub open spec fn dense_out<S: Sample>(l: DenseView, x: Seq<S>) -> Seq<S> {
    Seq::new(
        l.nb_neurons,
        |i: int|
            applied(
                l.activation,
                weighted_sum(
                    S::num(l.bias[i] as int),
                    l.weights,
                    l.nb_neurons as int,
                    i,
                    x,
                    l.nb_inputs,
                ) * weights_scale::<S>(),
            ),
    )
}

impl DenseLayer {
    /// The outputs of the layer for the input `x`.
    pub fn compute<S: Sample>(&self, x: &[S]) -> (out: Vec<S>)
        requires
            self@.wf(),
            self@.nb_neurons >= 1,
            self@.nb_inputs <= x@.len(),
        ensures
            out@.len() == self@.nb_neurons,
            S::functional() ==> out@ == dense_out(self@, x@),
    {
        let n: usize = self.nb_neurons;
        let mut out: Vec<S> = Vec::new();
        let mut i: usize = 0;
        while i < n
            invariant
                self@.wf(),
                n == self@.nb_neurons,
                self@.nb_inputs <= x@.len(),
                i <= n,
                out@.len() == i,
                S::functional() ==> forall|k: int|
                    0 <= k < i ==> #[trigger] out@[k] == dense_out(self@, x@)[k],
            decreases n - i,
        {
            let s = add_weighted(
                S::ratio(self.bias[i] as i64, 1),
                &self.weights,
                n,
                i,
                x,
                self.nb_inputs,
            );
            out.push(self.activation.apply(s.times(S::ratio(1, 256))));
            i += 1;
        }
        out
    }
}

/// The largest magnitude among the first `n` elements.
pub open spec fn largest<S: Sample>(x: Seq<S>, n: nat) -> S
    decreases n,
{
    if n == 0 {
        S::nil()
    } else {
        largest(x, (n - 1) as nat).max_of(x[n - 1].abs_of())
    }
}

/// A vector as 8-bit integers, in units of its largest magnitude over 127.
pub open spec fn quantised<S: Sample>(x: Seq<S>) -> Seq<i8> {
    let m = largest(x, x.len());
    Seq::new(
        x.len(),
        |i: int|
            if m.eq_of(S::nil()) {
                0i8
            } else {
                quantize::quantum(x[i] * (S::num(127) / m))
            },
    )
}

/// The unit of a quantised vector.
pub open spec fn unit_of<S: Sample>(x: Seq<S>) -> S {
    let m = largest(x, x.len());
    if m.eq_of(S::nil()) {
        S::nil()
    } else {
        m / S::num(127)
    }
}

/// Quantise a vector to 8-bit integers. Returns the integers and their unit.
pub fn quantize_dyn<S: Sample>(x: &[S]) -> (r: (Vec<i8>, S))
    ensures
        r.0@.len() == x@.len(),
        forall|i: int| 0 <= i < x@.len() ==> -127 <= #[trigger] r.0@[i] <= 127,
        S::functional() ==> {
            &&& r.0@ == quantised(x@)
            &&& r.1 == unit_of(x@)
        },
{
    let zero = S::ratio(0, 1);
    let mut m = zero;
    let mut i: usize = 0;
    while i < x.len()
        invariant
            i <= x@.len(),
            S::functional() ==> m == largest(x@, i as nat),
        decreases x@.len() - i,
    {
        m = m.larger(x[i].magnitude());
        i += 1;
    }
    if m.equals(zero) {
        let q = filled(0i8, x.len());
        assert(S::functional() ==> q@ == quantised(x@));
        return (q, zero);
    }
    let scale = S::ratio(127, 1).over(m);
    let mut q: Vec<i8> = Vec::new();
    let mut i: usize = 0;
    while i < x.len()
        invariant
            i <= x@.len(),
            q@.len() == i,
            forall|k: int| 0 <= k < i ==> -127 <= #[trigger] q@[k] <= 127,
            S::functional() ==> {
                &&& !m.eq_of(S::nil())
                &&& m == largest(x@, x@.len())
                &&& scale == S::num(127) / m
                &&& forall|k: int| 0 <= k < i ==> #[trigger] q@[k] == quantised(x@)[k]
            },
        decreases x@.len() - i,
    {
        q.push(quant(x[i].times(scale)));
        i += 1;
    }
    assert(S::functional() ==> q@ == quantised(x@));
    (q, m.over(S::ratio(127, 1)))
}

/// The sum of the first `n` products of two integer vectors, the first from
/// `ao` on.
pub open spec fn int_dot(a: Seq<i8>, ao: int, b: Seq<i8>, n: nat) -> int
    decreases n,
{
    if n == 0 {
        0
    } else {
        int_dot(a, ao, b, (n - 1) as nat) + a[ao + n - 1] * b[n - 1]
    }
}

/// The inner product of two vectors of 8-bit integers.
pub fn i8_dot(a: &[i8], b: &[i8]) -> (s: i32)
    requires
        a@.len() == b@.len(),
        a@.len() <= 0x1_0000,
    ensures
        s == int_dot(a@, 0, b@, a@.len()),
{
    let mut s: i32 = 0;
    let mut i: usize = 0;
    while i < a.len()
        invariant
            i <= a@.len(),
            a@.len() == b@.len(),
            a@.len() <= 0x1_0000,
            -0x4000 * i <= s <= 0x4000 * i,
            s == int_dot(a@, 0, b@, i as nat),
        decreases a@.len() - i,
    {
        let x = a[i] as i32;
        let y = b[i] as i32;
        assert(-0x4000 <= x * y <= 0x4000) by (nonlinear_arith)
            requires
                -128 <= x <= 127,
                -128 <= y <= 127,
        ;
        s = s + x * y;
        i += 1;
    }
    s
}

/// The three gates of a recurrent layer before their activations: the bias and
/// the input's share. The inputs are quantised; `o` counts the outputs of all
/// three gates.
pub open spec fn gate_input<S: Sample>(l: GruView, x: Seq<S>, o: int) -> S {
    let n = l.nb_inputs;
    let part = x.take(n as int);
    let dot = int_dot(l.input_weights_t, o * n, quantised(part), n);
    S::num(l.bias[o] as int) + S::num(dot) * unit_of(part)
}

/// Gate `gate` of neuron `i` before its activation, with the recurrent share of
/// the vector `h`.
pub open spec fn gate_sum<S: Sample>(
    l: GruView,
    x: Seq<S>,
    h: Seq<S>,
    gate: int,
    i: int,
) -> S {
    let n = l.nb_neurons as int;
    weighted_sum(
        gate_input(l, x, gate * n + i),
        l.recurrent_weights,
        3 * n,
        gate * n + i,
        h,
        l.nb_neurons,
    ) * weights_scale::<S>()
}

/// The state after the reset gate.
pub open spec fn reset_state<S: Sample>(l: GruView, state: Seq<S>, x: Seq<S>) -> Seq<S> {
    Seq::new(l.nb_neurons, |i: int| state[i] * sigmoid_of(gate_sum(l, x, state, 1, i)))
}

/// The state of a recurrent layer after one step.
pub open spec fn gru_out<S: Sample>(l: GruView, state: Seq<S>, x: Seq<S>) -> Seq<S> {
    let r = reset_state(l, state, x);
    Seq::new(
        state.len(),
        |i: int|
            if i < l.nb_neurons {
                let z = sigmoid_of(gate_sum(l, x, state, 0, i));
                let h = applied(l.activation, gate_sum(l, x, r, 2, i));
                z * state[i] + (S::unit() - z) * h
            } else {
                state[i]
            },
    )
}

impl GruLayer {
    /// The gates before their activations: the bias and the input's share.
    fn gate_inputs<S: Sample>(&self, x: &[S]) -> (g: Vec<S>)
        requires
            self@.wf(),
            self@.nb_inputs <= x@.len(),
        ensures
            g@.len() == 3 * self@.nb_neurons,
            S::functional() ==> forall|o: int|
                0 <= o < g@.len() ==> #[trigger] g@[o] == gate_input(self@, x@, o),
    {
        let ni: usize = self.nb_inputs;
        let outs: usize = 3 * self.nb_neurons;
        let part = slice_subrange(x, 0, ni);
        assert(part@ == x@.take(ni as int));
        let (qx, unit) = quantize_dyn(part);
        let mut g: Vec<S> = Vec::new();
        let mut o: usize = 0;
        while o < outs
            invariant
                self@.wf(),
                ni == self@.nb_inputs,
                outs == 3 * self@.nb_neurons,
                qx@.len() == ni,
                part@ == x@.take(ni as int),
                o <= outs,
                g@.len() == o,
                S::functional() ==> {
                    &&& qx@ == quantised(part@)
                    &&& unit == unit_of(part@)
                    &&& forall|k: int|
                        0 <= k < o ==> #[trigger] g@[k] == gate_input(self@, x@, k)
                },
            decreases outs - o,
        {
            assert(o * ni + ni <= outs * ni && 0 <= o * ni && outs * ni <= 48387)
                by (nonlinear_arith)
                requires
                    o < outs,
                    outs <= 381,
                    ni <= 127,
            ;
            let row = slice_subrange(&self.input_weights_t, o * ni, o * ni + ni);
            proof {
                lemma_int_dot(self.input_weights_t@, o * ni, row@, qx@, ni as nat);
            }
            let dot = i8_dot(row, &qx);
            g.push(
                S::ratio(self.bias[o] as i64, 1).plus(S::ratio(dot as i64, 1).times(unit)),
            );
            o += 1;
        }
        g
    }

    /// One step of the layer.
    pub fn compute<S: Sample>(&self, state: &mut Vec<S>, x: &[S])
        requires
            self@.wf(),
            self@.nb_neurons >= 1,
            self@.nb_inputs <= x@.len(),
            self@.nb_neurons <= old(state)@.len(),
        ensures
            final(state)@.len() == old(state)@.len(),
            S::functional() ==> final(state)@ == gru_out(self@, old(state)@, x@),
    {
        let n: usize = self.nb_neurons;
        let ghost st = state@;
        let g = self.gate_inputs(x);
        let scale = S::ratio(1, 256);
        let one = S::ratio(1, 1);
        assert(n * (3 * n) == 3 * n * n) by (nonlinear_arith);
        let mut z: Vec<S> = Vec::new();
        let mut r: Vec<S> = Vec::new();
        let mut i: usize = 0;
        while i < n
            invariant
                self@.wf(),
                n == self@.nb_neurons,
                n * (3 * n) == 3 * n * n,
                n <= st.len(),
                state@ == st,
                g@.len() == 3 * n,
                i <= n,
                z@.len() == i,
                r@.len() == i,
                S::functional() ==> {
                    &&& scale == weights_scale::<S>()
                    &&& forall|o: int|
                        0 <= o < 3 * n ==> #[trigger] g@[o] == gate_input(self@, x@, o)
                    &&& forall|k: int|
                        0 <= k < i ==> #[trigger] z@[k] == sigmoid_of(
                            gate_sum(self@, x@, st, 0, k),
                        )
                    &&& forall|k: int|
                        0 <= k < i ==> #[trigger] r@[k] == reset_state(self@, st, x@)[k]
                },
            decreases n - i,
        {
            let zs = add_weighted(g[i], &self.recurrent_weights, 3 * n, i, state, n);
            let rs = add_weighted(g[n + i], &self.recurrent_weights, 3 * n, n + i, state, n);
            z.push(sigmoid_approx(zs.times(scale)));
            r.push(state[i].times(sigmoid_approx(rs.times(scale))));
            i += 1;
        }
        assert(S::functional() ==> r@ == reset_state(self@, st, x@));
        let mut i: usize = 0;
        while i < n
            invariant
                self@.wf(),
                n == self@.nb_neurons,
                n * (3 * n) == 3 * n * n,
                n <= st.len(),
                state@.len() == st.len(),
                forall|k: int| i <= k < st.len() ==> #[trigger] state@[k] == st[k],
                g@.len() == 3 * n,
                i <= n,
                z@.len() == n,
                r@.len() == n,
                S::functional() ==> {
                    &&& scale == weights_scale::<S>()
                    &&& one == S::unit()
                    &&& forall|o: int|
                        0 <= o < 3 * n ==> #[trigger] g@[o] == gate_input(self@, x@, o)
                    &&& forall|k: int|
                        0 <= k < n ==> #[trigger] z@[k] == sigmoid_of(
                            gate_sum(self@, x@, st, 0, k),
                        )
                    &&& r@ == reset_state(self@, st, x@)
                    &&& forall|k: int|
                        0 <= k < i ==> #[trigger] state@[k] == gru_out(self@, st, x@)[k]
                },
            decreases n - i,
        {
            let hs = add_weighted(g[2 * n + i], &self.recurrent_weights, 3 * n, 2 * n + i, &r, n);
            let h = self.activation.apply(hs.times(scale));
            let s = z[i].times(state[i]).plus(one.minus(z[i]).times(h));
            state.set(i, s);
            i += 1;
        }
        assert(S::functional() ==> state@ == gru_out(self@, st, x@));
    }
}

/// The inner product with a part of a vector is that with the vector from its
/// start on.
proof fn lemma_int_dot(a: Seq<i8>, ao: int, row: Seq<i8>, b: Seq<i8>, n: nat)
    requires
        forall|k: int| 0 <= k < n ==> #[trigger] row[k] == a[ao + k],
    ensures
        int_dot(a, ao, b, n) == int_dot(row, 0, b, n),
    decreases n,
{
    if n > 0 {
        lemma_int_dot(a, ao, row, b, (n - 1) as nat);
        assert(row[n - 1] == a[ao + (n - 1)]);
    }
}

/// The states of the three recurrent layers.
pub struct RnnStateV1<S> {
    pub vad_gru_state: Vec<S>,
    pub noise_gru_state: Vec<S>,
    pub denoise_gru_state: Vec<S>,
}

/// An [`RnnStateV1`] with the vectors as sequences.
pub struct StateView<S> {
    pub vad: Seq<S>,
    pub noise: Seq<S>,
    pub denoise: Seq<S>,
}

impl<S> View for RnnStateV1<S> {
    type V = StateView<S>;

    open spec fn view(&self) -> StateView<S> {
        StateView {
            vad: self.vad_gru_state@,
            noise: self.noise_gru_state@,
            denoise: self.denoise_gru_state@,
        }
    }
}

impl<S> StateView<S> {
    /// The states have the lengths that a model asks for.
    pub open spec fn fits(self, m: ModelView) -> bool {
        &&& self.vad.len() == m.vad_gru.nb_neurons
        &&& self.noise.len() == m.noise_gru.nb_neurons
        &&& self.denoise.len() == m.denoise_gru.nb_neurons
    }
}

/// No layer is empty.
pub open spec fn populated(m: ModelView) -> bool {
    &&& m.input_dense.nb_neurons >= 1
    &&& m.vad_gru.nb_neurons >= 1
    &&& m.noise_gru.nb_neurons >= 1
    &&& m.denoise_gru.nb_neurons >= 1
}

/// The states before the first frame: all zero.
pub open spec fn fresh<S: Sample>(m: ModelView) -> StateView<S> {
    StateView {
        vad: Seq::new(m.vad_gru.nb_neurons, |i: int| S::nil()),
        noise: Seq::new(m.noise_gru.nb_neurons, |i: int| S::nil()),
        denoise: Seq::new(m.denoise_gru.nb_neurons, |i: int| S::nil()),
    }
}

/// What one step of the network gives: the new states, the band gains and the
/// probability of speech.
pub struct NetStep<S> {
    pub state: StateView<S>,
    pub gains: Seq<S>,
    pub vad: S,
}

/// One step of the network.
pub open spec fn net_step<S: Sample>(m: ModelView, st: StateView<S>, x: Seq<S>) -> NetStep<S> {
    let d = dense_out(m.input_dense, x);
    let v = gru_out(m.vad_gru, st.vad, d);
    let n = gru_out(m.noise_gru, st.noise, d + v + x);
    let h = gru_out(m.denoise_gru, st.denoise, v + n + x);
    NetStep {
        state: StateView { vad: v, noise: n, denoise: h },
        gains: dense_out(m.denoise_output, h),
        vad: dense_out(m.vad_output, v)[0],
    }
}

impl RnnModelV1 {
    /// Check that no layer is empty.
    pub fn has_neurons(&self) -> (ok: bool)
        ensures
            ok == populated(self@),
    {
        self.input_dense.nb_neurons >= 1 && self.vad_gru.nb_neurons >= 1
            && self.noise_gru.nb_neurons >= 1 && self.denoise_gru.nb_neurons >= 1
    }
}

impl<S: Sample> RnnStateV1<S> {
    /// States of zeros for a model.
    pub fn new(m: &RnnModelV1) -> (st: Self)
        ensures
            st@.fits(m@),
            S::functional() ==> st@ == fresh::<S>(m@),
    {
        let zero = S::ratio(0, 1);
        let st = RnnStateV1 {
            vad_gru_state: filled(zero, m.vad_gru.nb_neurons),
            noise_gru_state: filled(zero, m.noise_gru.nb_neurons),
            denoise_gru_state: filled(zero, m.denoise_gru.nb_neurons),
        };
        proof {
            if S::functional() {
                let f = fresh::<S>(m@);
                assert(st@.vad == f.vad);
                assert(st@.noise == f.noise);
                assert(st@.denoise == f.denoise);
            }
        }
        st
    }

    /// Run the network on one frame of features. Returns the band gains and
    /// the probability of speech.
    pub fn compute(&mut self, m: &RnnModelV1, x: &[S]) -> (r: (Vec<S>, S))
        requires
            m@.wf(),
            populated(m@),
            old(self)@.fits(m@),
            x@.len() == NB_FEATURES,
        ensures
            final(self)@.fits(m@),
            r.0@.len() == NB_BANDS,
            S::functional() ==> {
                let step = net_step(m@, old(self)@, x@);
                &&& final(self)@ == step.state
                &&& r.0@ == step.gains
                &&& r.1 == step.vad
            },
    {
        let d = m.input_dense.compute(x);
        m.vad_gru.compute(&mut self.vad_gru_state, &d);
        let vad = m.vad_output.compute(&self.vad_gru_state);
        let mut noise_in: Vec<S> = Vec::new();
        extend(&mut noise_in, &d);
        extend(&mut noise_in, &self.vad_gru_state);
        extend(&mut noise_in, x);
        assert(noise_in@ == d@ + self@.vad + x@);
        m.noise_gru.compute(&mut self.noise_gru_state, &noise_in);
        let mut denoise_in: Vec<S> = Vec::new();
        extend(&mut denoise_in, &self.vad_gru_state);
        extend(&mut denoise_in, &self.noise_gru_state);
        extend(&mut denoise_in, x);
        assert(denoise_in@ == self@.vad + self@.noise + x@);
        m.denoise_gru.compute(&mut self.denoise_gru_state, &denoise_in);
        let gains = m.denoise_output.compute(&self.denoise_gru_state);
        (gains, vad[0])
    }
}

} // verus!
