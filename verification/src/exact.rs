//! What the signal path computes in exact arithmetic: sums of products in
//! whatever order they are formed, the filter's recurrence, the window's
//! power, and the ranges that energies, gains and states keep to.

use vstd::prelude::*;
use crate::arith::{Arith, Real, Sample, SampleArith};
use crate::bands;
use crate::celt_lpc;
use crate::common;
use crate::denoise::StreamView;
use crate::denoise;
use crate::dft;
use crate::fft::Cpx;
use crate::inverse;
use crate::layer::LayerView;
use crate::model::RnnModel;
use crate::model;
use crate::nnet::Activation;
use crate::nnet;
use crate::rnn::RnnView;
use crate::rnn;
use crate::{EBAND20MS, FRAME_SIZE, NB_BANDS};

verus! {

/// `phi` reads quotients as quotients.
pub open spec fn divides<S: Real>(phi: spec_fn(S) -> real) -> bool {
    forall|a: S, b: S| phi(b) != 0real ==> phi(#[trigger] (a / b)) * phi(b) == phi(a)
}

/// `phi` reads small integers as integers.
pub open spec fn counts<S: Real>(phi: spec_fn(S) -> real) -> bool {
    forall|k: int| -1 <= k <= 1000 ==> phi(#[trigger] S::num(k)) == k as real
}

/// `phi` reads comparisons as comparisons.
pub open spec fn compares<S: Real>(phi: spec_fn(S) -> real) -> bool {
    &&& forall|a: S, b: S| #[trigger] a.lt_of(b) <==> phi(a) < phi(b)
    &&& forall|a: S, b: S|
        phi(#[trigger] a.max_of(b)) == if phi(a) < phi(b) {
            phi(b)
        } else {
            phi(a)
        }
    &&& forall|a: S, b: S|
        phi(#[trigger] a.min_of(b)) == if phi(b) < phi(a) {
            phi(b)
        } else {
            phi(a)
        }
}

/// `phi` reads samples and `psi` numbers of the wider format as real numbers:
/// operations on either are exact, and so is going from one to the other.
pub open spec fn faithful<S: Sample>(
    phi: spec_fn(S) -> real,
    psi: spec_fn(S::Wide) -> real,
) -> bool {
    &&& dft::exact(phi)
    &&& divides(phi)
    &&& counts(phi)
    &&& compares(phi)
    &&& forall|a: S::Wide, b: S::Wide| #[trigger] psi(a + b) == psi(a) + psi(b)
    &&& forall|a: S::Wide, b: S::Wide| #[trigger] psi(a - b) == psi(a) - psi(b)
    &&& forall|a: S::Wide, b: S::Wide| #[trigger] psi(a * b) == psi(a) * psi(b)
    &&& divides(psi)
    &&& counts(psi)
    &&& compares(psi)
    &&& psi(<S::Wide as Arith>::frac(1, 2)) * 2real == 1real
    &&& forall|a: S| psi(#[trigger] a.wide()) == phi(a)
    &&& forall|w: S::Wide| phi(#[trigger] S::narrowed(w)) == psi(w)
}

/// The sum of the first `n` products of two vectors.
pub open spec fn products<S: Sample>(
    phi: spec_fn(S) -> real,
    x: Seq<S>,
    y: Seq<S>,
    n: nat,
) -> real
    decreases n,
{
    if n == 0 {
        0real
    } else {
        products(phi, x, y, (n - 1) as nat) + phi(x[n - 1]) * phi(y[n - 1])
    }
}

/// Products that are added to `init` from element `at` on.
proof fn lemma_dot_on<S: Sample>(
    phi: spec_fn(S) -> real,
    init: S,
    x: Seq<S>,
    y: Seq<S>,
    at: nat,
    count: nat,
)
    requires
        dft::exact(phi),
        phi(init) == products(phi, x, y, at),
    ensures
        phi(celt_lpc::dot_from(init, x, at as int, y, at as int, 1, count)) == products(
            phi,
            x,
            y,
            at + count,
        ),
    decreases count,
{
    if count > 0 {
        lemma_dot_on(phi, init, x, y, at, (count - 1) as nat);
        assert((at + count - 1) as nat == at + (count - 1) as nat);
    }
}

/// One product more.
proof fn lemma_next_product<S: Sample>(phi: spec_fn(S) -> real, x: Seq<S>, y: Seq<S>, k: nat)
    ensures
        products(phi, x, y, k + 1) == products(phi, x, y, k) + phi(x[k as int]) * phi(
            y[k as int],
        ),
{
}

/// Four interleaved sums.
proof fn lemma_four_sums<S: Sample>(phi: spec_fn(S) -> real, x: Seq<S>, y: Seq<S>, q: nat)
    requires
        dft::exact(phi),
        phi(S::nil()) == 0real,
    ensures
        phi(celt_lpc::dot_from(S::nil(), x, 0, y, 0, 4, q)) + phi(
            celt_lpc::dot_from(S::nil(), x, 1, y, 1, 4, q),
        ) + phi(celt_lpc::dot_from(S::nil(), x, 2, y, 2, 4, q)) + phi(
            celt_lpc::dot_from(S::nil(), x, 3, y, 3, 4, q),
        ) == products(phi, x, y, 4 * q),
    decreases q,
{
    if q > 0 {
        lemma_four_sums(phi, x, y, (q - 1) as nat);
        let m = (4 * (q - 1)) as nat;
        lemma_next_product(phi, x, y, m);
        lemma_next_product(phi, x, y, m + 1);
        lemma_next_product(phi, x, y, m + 2);
        lemma_next_product(phi, x, y, m + 3);
        assert(m + 4 == 4 * q);
    }
}

/// Two interleaved sums.
proof fn lemma_two_sums<S: Sample>(phi: spec_fn(S) -> real, x: Seq<S>, y: Seq<S>, q: nat)
    requires
        dft::exact(phi),
        phi(S::nil()) == 0real,
    ensures
        phi(celt_lpc::dot_from(S::nil(), x, 0, y, 0, 2, q)) + phi(
            celt_lpc::dot_from(S::nil(), x, 1, y, 1, 2, q),
        ) == products(phi, x, y, 2 * q),
    decreases q,
{
    if q > 0 {
        lemma_two_sums(phi, x, y, (q - 1) as nat);
        let m = (2 * (q - 1)) as nat;
        lemma_next_product(phi, x, y, m);
        lemma_next_product(phi, x, y, m + 1);
        assert(m + 2 == 2 * q);
    }
}

/// The order in which the products of an inner product are added does not
/// matter: one sum, two interleaved sums and four are the same.
pub proof fn lemma_inner_products<S: Sample>(
    phi: spec_fn(S) -> real,
    x: Seq<S>,
    y: Seq<S>,
    n: nat,
)
    requires
        dft::exact(phi),
        phi(S::nil()) == 0real,
    ensures
        phi(celt_lpc::dot(x, y, n)) == products(phi, x, y, n),
        phi(celt_lpc::dot_by_two(x, y, n)) == products(phi, x, y, n),
        phi(celt_lpc::dot_by_four(x, y, n)) == products(phi, x, y, n),
{
    lemma_dot_on(phi, S::nil(), x, y, 0, n);
    let h = n / 2;
    lemma_two_sums(phi, x, y, h);
    let s = celt_lpc::dot_from(S::nil(), x, 0, y, 0, 2, h) + celt_lpc::dot_from(
        S::nil(),
        x,
        1,
        y,
        1,
        2,
        h,
    );
    lemma_dot_on(phi, s, x, y, 2 * h, n % 2);
    assert(2 * h + n % 2 == n);
    let q = n / 4;
    lemma_four_sums(phi, x, y, q);
    let a = celt_lpc::dot_from(S::nil(), x, 0, y, 0, 4, q) + celt_lpc::dot_from(
        S::nil(),
        x,
        1,
        y,
        1,
        4,
        q,
    );
    let b = celt_lpc::dot_from(S::nil(), x, 2, y, 2, 4, q) + celt_lpc::dot_from(
        S::nil(),
        x,
        3,
        y,
        3,
        4,
        q,
    );
    lemma_dot_on(phi, a + b, x, y, 4 * q, n % 4);
    assert(4 * q + n % 4 == n);
}

/// Correlations at every lag are plain inner products.
pub proof fn lemma_lag_corr<S: Sample>(
    phi: spec_fn(S) -> real,
    x: Seq<S>,
    y: Seq<S>,
    len: nat,
    max_pitch: int,
    i: int,
)
    requires
        dft::exact(phi),
        phi(S::nil()) == 0real,
    ensures
        phi(celt_lpc::lag_corr(x, y, len, max_pitch, i)) == products(phi, x, y.skip(i), len),
{
    lemma_inner_products(phi, x, y.skip(i), len);
}

/// Products of a signal with itself further on.
proof fn lemma_products_on<S: Sample>(
    phi: spec_fn(S) -> real,
    x: Seq<S>,
    k: int,
    at: nat,
    count: nat,
)
    requires
        dft::exact(phi),
        phi(S::nil()) == 0real,
        0 <= k <= x.len(),
        k + at + count <= x.len(),
    ensures
        products(phi, x, x.skip(k), at) + phi(
            celt_lpc::dot_from(S::nil(), x, k + at, x, at as int, 1, count),
        ) == products(phi, x, x.skip(k), at + count),
    decreases count,
{
    if count > 0 {
        let c = (count - 1) as nat;
        lemma_products_on(phi, x, k, at, c);
        lemma_next_product(phi, x, x.skip(k), at + c);
        assert(at + c + 1 == at + count);
        assert(x.skip(k)[(at + c) as int] == x[k + at + c]);
        dft::lemma_comm(phi(x[k + at + c]), phi(x[(at + c) as int]));
    }
}

/// The autocorrelation at lag `k` is the sum of all products of samples that
/// lie `k` apart.
pub proof fn lemma_autocorr<S: Sample>(
    phi: spec_fn(S) -> real,
    x: Seq<S>,
    lag: nat,
    n: nat,
    k: int,
)
    requires
        dft::exact(phi),
        phi(S::nil()) == 0real,
        lag <= n <= x.len(),
        0 <= k <= lag,
    ensures
        phi(celt_lpc::autocorrs(x, lag, n)[k]) == products(phi, x, x.skip(k), (n - k) as nat),
{
    let fast = (n - lag) as nat;
    lemma_lag_corr(phi, x, x, fast, lag as int + 1, k);
    lemma_products_on(phi, x, k, fast, (lag - k) as nat);
    assert(fast + (lag - k) as nat == (n - k) as nat);
}

/// The filter's recurrence: each sample of the output is the sample of the
/// input, plus the two before it weighted by `b`, minus the two of the output
/// before it weighted by `a`.
pub proof fn lemma_recurrence<S: Sample>(
    phi: spec_fn(S) -> real,
    psi: spec_fn(S::Wide) -> real,
    x: Seq<S>,
    mem: (S, S),
    b: (S, S),
    a: (S, S),
    i: int,
)
    requires
        faithful(phi, psi),
        2 <= i < x.len(),
    ensures
        ({
            let y = common::biquad_out(x, mem, b, a);
            phi(y[i]) == phi(x[i]) + phi(b.0) * phi(x[i - 1]) + phi(b.1) * phi(x[i - 2]) - phi(a.0)
                * phi(y[i - 1]) - phi(a.1) * phi(y[i - 2])
        }),
{
    let y = common::biquad_out(x, mem, b, a);
    let m2 = common::biquad_mem(x, mem, b, a, (i - 2) as nat);
    let m1 = common::biquad_mem(x, mem, b, a, (i - 1) as nat);
    let m0 = common::biquad_mem(x, mem, b, a, i as nat);
    let y2 = (x[i - 2] + m2.0).wide();
    let y1 = (x[i - 1] + m1.0).wide();
    assert(y[i - 2] == x[i - 2] + m2.0);
    assert(y[i - 1] == x[i - 1] + m1.0);
    assert(m1.1 == S::narrowed(b.1.wide() * x[i - 2].wide() - a.1.wide() * y2));
    assert(m0.0 == S::narrowed(
        m1.1.wide() + (b.0.wide() * x[i - 1].wide() - a.0.wide() * y1),
    ));
    assert(phi(m1.1) == phi(b.1) * phi(x[i - 2]) - phi(a.1) * phi(y[i - 2]));
    assert(phi(m0.0) == phi(m1.1) + (phi(b.0) * phi(x[i - 1]) - phi(a.0) * phi(y[i - 1])));
}

/// The squares of the sines of two angles that make a quarter of a turn add up
/// to one.
pub open spec fn exact_sine<W: Real>(psi: spec_fn(W) -> real) -> bool {
    forall|a: W, b: W|
        psi(a) + psi(b) == psi(W::frac(1, 2) * W::pi_of()) ==> psi(#[trigger] a.sin_of()) * psi(
            a.sin_of(),
        ) + psi(#[trigger] b.sin_of()) * psi(b.sin_of()) == 1real
}

/// The window shares the power of every sample with its mirror image.
pub proof fn lemma_window_power<S: Sample>(
    phi: spec_fn(S) -> real,
    psi: spec_fn(S::Wide) -> real,
)
    requires
        faithful(phi, psi),
        exact_sine(psi),
    ensures
        inverse::power_complementary(phi, common::half_window_of::<S>()),
{
    let half = common::half_window_of::<S>();
    assert forall|i: int| 0 <= i < FRAME_SIZE implies phi(#[trigger] half[i]) * phi(half[i]) + phi(
        half[FRAME_SIZE - 1 - i],
    ) * phi(half[FRAME_SIZE - 1 - i]) == 1real by {
        lemma_window_pair(phi, psi, i);
    }
}

proof fn lemma_window_pair<S: Sample>(
    phi: spec_fn(S) -> real,
    psi: spec_fn(S::Wide) -> real,
    i: int,
)
    requires
        faithful(phi, psi),
        exact_sine(psi),
        0 <= i < FRAME_SIZE,
    ensures
        ({
            let half = common::half_window_of::<S>();
            let j = FRAME_SIZE - 1 - i;
            phi(half[i]) * phi(half[i]) + phi(half[j]) * phi(half[j]) == 1real
        }),
{
    let j = FRAME_SIZE - 1 - i;
    let h = <S::Wide as Arith>::frac(1, 2);
    let quarter = h * <S::Wide as Arith>::pi_of();
    let size = <S::Wide as Arith>::num(FRAME_SIZE as int);
    let ui = <S::Wide as Arith>::num(i) + h;
    let uj = <S::Wide as Arith>::num(j) + h;
    let ai = quarter * ui / size;
    let aj = quarter * uj / size;
    let q = psi(quarter);
    assert(psi(size) == 480real);
    assert(psi(ai) * 480real == q * psi(ui));
    assert(psi(aj) * 480real == q * psi(uj));
    assert(psi(ui) + psi(uj) == 480real);
    dft::lemma_dist(psi(ui), psi(uj), q);
    assert(psi(ai) + psi(aj) == q);
    let si = psi(ai.sin_of());
    let sj = psi(aj.sin_of());
    assert(si * si + sj * sj == 1real);
    let wi = quarter * ai.sin_of() * ai.sin_of();
    let wj = quarter * aj.sin_of() * aj.sin_of();
    dft::lemma_assoc(q, si, si);
    dft::lemma_assoc(q, sj, sj);
    dft::lemma_dist(si * si, sj * sj, q);
    dft::lemma_units(q);
    assert(psi(wi) + psi(wj) == q);
    assert(wi == common::window_angle::<S::Wide>(i));
    assert(wj == common::window_angle::<S::Wide>(j));
    assert(psi(wi.sin_of()) * psi(wi.sin_of()) + psi(wj.sin_of()) * psi(wj.sin_of()) == 1real);
    let half = common::half_window_of::<S>();
    assert(half[i] == S::narrowed(wi.sin_of()));
    assert(half[j] == S::narrowed(wj.sin_of()));
}

proof fn lemma_nonneg(a: real, b: real)
    requires
        a >= 0real,
        b >= 0real,
    ensures
        a * b >= 0real,
{
    assert(a * b >= 0real) by (nonlinear_arith)
        requires
            a >= 0real,
            b >= 0real,
    ;
}

pub proof fn lemma_square_nonneg(a: real)
    ensures
        a * a >= 0real,
{
    if a >= 0real {
        lemma_nonneg(a, a);
    } else {
        lemma_nonneg(0real - a, 0real - a);
        assert((0real - a) * (0real - a) == a * a) by (nonlinear_arith);
    }
}

proof fn lemma_quotient(t: real, d: real, n: real)
    requires
        t * d == n,
        d > 0real,
        0real <= n,
    ensures
        t >= 0real,
{
    if t < 0real {
        assert(t * d < 0real) by (nonlinear_arith)
            requires
                t < 0real,
                d > 0real,
        ;
    }
}

/// A number between 0 and 1 times one between -1 and 1.
proof fn lemma_shrinks(z: real, s: real)
    requires
        0real <= z,
        -1real <= s <= 1real,
    ensures
        -z <= z * s <= z,
{
    assert(-z <= z * s <= z) by (nonlinear_arith)
        requires
            0real <= z,
            -1real <= s <= 1real,
    ;
}

/// The approximations of the activations keep to their ranges.
pub proof fn lemma_activations<S: Sample>(phi: spec_fn(S) -> real, x: S)
    requires
        dft::exact(phi),
        counts(phi),
        compares(phi),
    ensures
        -1real <= phi(nnet::tanh_of(x)) <= 1real,
        0real <= phi(nnet::sigmoid_of(x)) <= 1real,
{
    lemma_limits(phi, x);
    let half = S::frac(1, 2);
    lemma_limits(phi, half * x);
    let t = nnet::tanh_of(half * x);
    dft::lemma_dist(phi(half), phi(half), phi(t));
    dft::lemma_units(phi(t));
}

proof fn lemma_limits<S: Sample>(phi: spec_fn(S) -> real, x: S)
    requires
        counts(phi),
        compares(phi),
    ensures
        -1real <= phi(nnet::tanh_of(x)) <= 1real,
{
    assert(phi(S::num(1)) == 1real);
    assert(S::num(1) == S::unit());
    assert(phi(S::num(-1)) == -1real);
}

/// All numbers lie between -1 and 1.
pub open spec fn bounded<S>(phi: spec_fn(S) -> real, s: Seq<S>) -> bool {
    forall|i: int| 0 <= i < s.len() ==> -1real <= phi(#[trigger] s[i]) <= 1real
}

/// The state of a recurrent unit stays between -1 and 1.
pub proof fn lemma_gru_bounded<S: Sample>(
    phi: spec_fn(S) -> real,
    input_w: LayerView,
    recurrent_w: LayerView,
    state: Seq<S>,
    x: Seq<S>,
)
    requires
        dft::exact(phi),
        counts(phi),
        compares(phi),
        bounded(phi, state),
    ensures
        bounded(phi, nnet::gru(input_w, recurrent_w, state, x)),
{
    let out = nnet::gru(input_w, recurrent_w, state, x);
    let n = recurrent_w.nb_inputs as int;
    let zi = nnet::affine(input_w, x);
    let rc = nnet::affine(recurrent_w, state);
    assert(phi(S::num(1)) == 1real);
    assert(S::num(1) == S::unit());
    assert forall|i: int| 0 <= i < out.len() implies -1real <= phi(#[trigger] out[i]) <= 1real by {
        assert(-1real <= phi(state[i]) <= 1real);
        if i < n {
            let z = nnet::update_gate(zi, rc, i);
            let h = nnet::candidate(zi, rc, n, i);
            lemma_activations(phi, zi[i] + rc[i]);
            lemma_activations(phi, zi[2 * n + i] + rc[2 * n + i] * nnet::reset_gate(zi, rc, n, i));
            lemma_shrinks(phi(z), phi(state[i]));
            lemma_shrinks(1real - phi(z), phi(h));
            assert(phi(S::unit() - z) == 1real - phi(z));
        }
    }
}

/// What the network remembers of its own outputs lies between -1 and 1.
pub open spec fn calm<S: Sample>(phi: spec_fn(S) -> real, st: RnnView<S>) -> bool {
    &&& bounded(phi, st.conv2)
    &&& bounded(phi, st.gru1)
    &&& bounded(phi, st.gru2)
    &&& bounded(phi, st.gru3)
}

/// The network's memories stay between -1 and 1, and its gains and the
/// probability of speech between 0 and 1.
pub proof fn lemma_network_bounded<S: Sample>(
    phi: spec_fn(S) -> real,
    m: &RnnModel,
    st: RnnView<S>,
    x: Seq<S>,
)
    requires
        dft::exact(phi),
        counts(phi),
        compares(phi),
        m.wf(),
        st.wf(),
        calm(phi, st),
    ensures
        calm(phi, rnn::rnn_step(m, st, x).state),
        rnn::rnn_step(m, st, x).gains.len() == NB_BANDS,
        forall|b: int|
            0 <= b < NB_BANDS ==> 0real <= phi(#[trigger] rnn::rnn_step(m, st, x).gains[b])
                <= 1real,
        0real <= phi(rnn::rnn_step(m, st, x).vad) <= 1real,
{
    let l = model::layers_of(m);
    assert(l[0] == m.conv1@ && l[1] == m.conv2@ && l[8] == m.dense_out@ && l[9] == m.vad_dense@);
    let hist1 = m.conv1@.nb_inputs - rnn::CONV1_IN;
    let hist2 = m.conv2@.nb_inputs - rnn::CONV2_IN;
    let in1 = nnet::conv_input(st.conv1, x, rnn::CONV1_IN as int, hist1);
    let c1 = nnet::dense(m.conv1@, in1, Activation::Tanh);
    let in2 = nnet::conv_input(st.conv2, c1, rnn::CONV2_IN as int, hist2);
    let c2 = nnet::dense(m.conv2@, in2, Activation::Tanh);
    assert(bounded(phi, c1)) by {
        assert forall|i: int| 0 <= i < c1.len() implies -1real <= phi(#[trigger] c1[i])
            <= 1real by {
            lemma_activations(phi, nnet::affine(m.conv1@, in1)[i]);
        }
    }
    let mem = nnet::conv_memory(st.conv2, c1, rnn::CONV2_IN as int, hist2);
    assert(bounded(phi, mem)) by {
        assert(in2.len() == 384);
        assert forall|i: int| 0 <= i < in2.len() implies -1real <= phi(#[trigger] in2[i])
            <= 1real by {
            if i < hist2 {
                assert(in2[i] == st.conv2[i]);
            } else {
                assert(in2[i] == c1[i - hist2]);
            }
        }
        assert forall|i: int| 0 <= i < mem.len() implies -1real <= phi(#[trigger] mem[i])
            <= 1real by {
            if i < hist2 {
                assert(mem[i] == in2[i + rnn::CONV2_IN]);
            } else {
                assert(mem[i] == st.conv2[i]);
            }
        }
    }
    lemma_gru_bounded(phi, m.gru1_input@, m.gru1_recurrent@, st.gru1, c2);
    let g1 = nnet::gru(m.gru1_input@, m.gru1_recurrent@, st.gru1, c2);
    lemma_gru_bounded(phi, m.gru2_input@, m.gru2_recurrent@, st.gru2, g1);
    let g2 = nnet::gru(m.gru2_input@, m.gru2_recurrent@, st.gru2, g1);
    lemma_gru_bounded(phi, m.gru3_input@, m.gru3_recurrent@, st.gru3, g2);
    let g3 = nnet::gru(m.gru3_input@, m.gru3_recurrent@, st.gru3, g2);
    let cat = c2 + g1 + g2 + g3;
    let gains = nnet::dense(m.dense_out@, cat, Activation::Sigmoid);
    assert forall|b: int| 0 <= b < NB_BANDS implies 0real <= phi(#[trigger] gains[b]) <= 1real by {
        lemma_activations(phi, nnet::affine(m.dense_out@, cat)[b]);
    }
    lemma_activations(phi, nnet::affine(m.vad_dense@, cat)[0]);
}

/// A bin's share of its band lies between 0 and 1.
proof fn lemma_share<S: Sample>(phi: spec_fn(S) -> real, j: int, n: nat)
    requires
        divides(phi),
        counts(phi),
        0 <= j < n <= 1000,
    ensures
        0real <= phi(bands::share::<S>(j, n)) <= 1real,
{
    let s = phi(bands::share::<S>(j, n));
    let (a, b) = (S::num(j), S::num(n as int));
    assert(phi(a) == j as real && phi(b) == (n as int) as real);
    assert(phi(a / b) * phi(b) == phi(a));
    lemma_quotient(s, phi(b), phi(a));
    lemma_below_one(s, phi(b));
}

proof fn lemma_below_one(s: real, d: real)
    requires
        d > 0real,
        s * d <= d,
    ensures
        s <= 1real,
{
    if s > 1real {
        assert(s * d > d) by (nonlinear_arith)
            requires
                s > 1real,
                d > 0real,
        ;
    }
}

/// What a bin contributes to an energy is not negative.
proof fn lemma_bin_energy<S: Sample>(phi: spec_fn(S) -> real, x: Seq<Cpx<S>>, k: int)
    requires
        dft::exact(phi),
    ensures
        phi(bands::bin(x, x, k)) >= 0real,
{
    lemma_square_nonneg(phi(x[k].r));
    lemma_square_nonneg(phi(x[k].i));
}

proof fn lemma_rising<S: Sample>(
    phi: spec_fn(S) -> real,
    init: S,
    edges: Seq<usize>,
    x: Seq<Cpx<S>>,
    i: int,
    n: nat,
)
    requires
        dft::exact(phi),
        divides(phi),
        counts(phi),
        phi(init) >= 0real,
        n <= bands::width(edges, i) <= 1000,
    ensures
        phi(bands::rising(init, edges, x, x, i, n)) >= 0real,
    decreases n,
{
    if n > 0 {
        lemma_rising(phi, init, edges, x, i, (n - 1) as nat);
        let w = bands::width(edges, i);
        lemma_share::<S>(phi, n - 1, w);
        let e = bands::bin(x, x, edges[i] + (n - 1));
        lemma_bin_energy(phi, x, edges[i] + (n - 1));
        lemma_nonneg(phi(bands::share::<S>(n - 1, w)), phi(e));
        assert(phi(bands::share::<S>(n - 1, w) * e) >= 0real);
    }
}

proof fn lemma_falling<S: Sample>(
    phi: spec_fn(S) -> real,
    init: S,
    edges: Seq<usize>,
    x: Seq<Cpx<S>>,
    i: int,
    n: nat,
)
    requires
        dft::exact(phi),
        divides(phi),
        counts(phi),
        phi(init) >= 0real,
        n <= bands::width(edges, i) <= 1000,
    ensures
        phi(bands::falling(init, edges, x, x, i, n)) >= 0real,
    decreases n,
{
    if n > 0 {
        lemma_falling(phi, init, edges, x, i, (n - 1) as nat);
        let w = bands::width(edges, i);
        lemma_share::<S>(phi, n - 1, w);
        assert(phi(S::num(1)) == 1real);
        assert(S::num(1) == S::unit());
        let e = bands::bin(x, x, edges[i] + (n - 1));
        lemma_bin_energy(phi, x, edges[i] + (n - 1));
        let rest = S::unit() - bands::share::<S>(n - 1, w);
        assert(phi(rest) >= 0real);
        lemma_nonneg(phi(rest), phi(e));
        assert(phi(rest * e) >= 0real);
    }
}

/// The sums of a spectrum's energies at the edges are not negative.
proof fn lemma_edge_energy<S: Sample>(
    phi: spec_fn(S) -> real,
    edges: Seq<usize>,
    x: Seq<Cpx<S>>,
    b: int,
)
    requires
        dft::exact(phi),
        divides(phi),
        counts(phi),
        0 <= b < edges.len(),
        forall|i: int| 0 <= i < edges.len() - 1 ==> #[trigger] bands::width(edges, i) <= 1000,
    ensures
        phi(bands::band_sum(edges, x, x, b)) >= 0real,
{
    assert(phi(S::num(0)) == 0real);
    assert(S::num(0) == S::nil());
    let low = bands::lower_side(edges, x, x, b);
    if b > 0 {
        lemma_rising(phi, S::nil(), edges, x, b - 1, bands::width(edges, b - 1));
    }
    if b < edges.len() - 1 {
        lemma_falling(phi, low, edges, x, b, bands::width(edges, b));
    }
}

/// The energy of a band is not negative.
pub proof fn lemma_energy<S: Sample>(phi: spec_fn(S) -> real, x: Seq<Cpx<S>>, b: int)
    requires
        dft::exact(phi),
        divides(phi),
        counts(phi),
        0 <= b < NB_BANDS,
    ensures
        phi(common::band_energy(x)[b]) >= 0real,
{
    common::lemma_edges();
    let edges = EBAND20MS@;
    let sums = bands::band_sums_of(edges, x, x);
    assert forall|i: int| 0 <= i < edges.len() - 1 implies #[trigger] bands::width(edges, i)
        <= 1000 by {
        assert(edges[i + 1] <= 400) by {
            if i + 1 < 33 {
                assert(edges[i + 1] < edges[33]);
            }
        }
    }
    assert forall|i: int| 0 <= i < edges.len() implies phi(#[trigger] sums[i]) >= 0real by {
        lemma_edge_energy(phi, edges, x, i);
    }
    if b == 0 || b == NB_BANDS - 1 {
        let (s, t) = if b == 0 {
            (sums[0], sums[1])
        } else {
            (sums[NB_BANDS as int], sums[NB_BANDS + 1])
        };
        let (two, three) = (S::num(2), S::num(3));
        assert(phi(two) == 2real && phi(three) == 3real);
        let v = (s + t) * two;
        assert(phi(v) == phi(s + t) * 2real);
        assert(phi(v / three) * 3real == phi(v));
        assert(common::band_energy(x)[b] == v / three);
    } else {
        assert(common::band_energy(x)[b] == sums[b + 1]);
    }
}

/// What a stream carries from frame to frame keeps to its ranges: what the
/// network remembers lies between -1 and 1, gains between 0 and 1, and energies
/// are not negative.
pub open spec fn sound<S: Sample>(phi: spec_fn(S) -> real, st: StreamView<S>) -> bool {
    &&& calm(phi, st.rnn)
    &&& forall|b: int| 0 <= b < NB_BANDS ==> 0real <= phi(#[trigger] st.lastg[b]) <= 1real
    &&& forall|b: int| 0 <= b < NB_BANDS ==> phi(#[trigger] st.delayed.ex[b]) >= 0real
}

/// The constants of the gain smoothing are in their ranges.
pub open spec fn mild<S: Sample>(
    phi: spec_fn(S) -> real,
    psi: spec_fn(S::Wide) -> real,
) -> bool {
    &&& 0real <= phi(S::frac(6, 10)) <= 1real
    &&& psi(<S::Wide as Arith>::frac(1, 1000)) > 0real
}

/// A new stream keeps to the ranges.
pub proof fn lemma_new_stream_sound<S: Sample>(phi: spec_fn(S) -> real)
    requires
        phi(S::nil()) == 0real,
    ensures
        sound(phi, denoise::new_stream::<S>()),
{
}

/// A gain lies between 0 and 1 after smoothing.
proof fn lemma_smoothed<S: Sample>(phi: spec_fn(S) -> real, g: S, last: S)
    requires
        dft::exact(phi),
        compares(phi),
        0real <= phi(S::frac(6, 10)) <= 1real,
        0real <= phi(g) <= 1real,
        0real <= phi(last) <= 1real,
    ensures
        0real <= phi(denoise::smoothed(g, last)) <= 1real,
{
    let c = S::frac(6, 10);
    lemma_nonneg(phi(c), phi(last));
    lemma_shrinks(phi(c), phi(last));
    assert(phi(c * last) == phi(c) * phi(last));
}

/// What is left of a gain for the next frame lies between 0 and 1.
proof fn lemma_carried<S: Sample>(
    phi: spec_fn(S) -> real,
    psi: spec_fn(S::Wide) -> real,
    g: S,
    before: S,
    now: S,
)
    requires
        faithful(phi, psi),
        mild(phi, psi),
        0real <= phi(g) <= 1real,
        phi(before) >= 0real,
        phi(now) >= 0real,
    ensures
        0real <= phi(denoise::carried(g, before, now)) <= 1real,
{
    let small = <S::Wide as Arith>::frac(1, 1000);
    let top = g.wide() * (before.wide() + small);
    let bottom = now.wide() + small;
    let one = <S::Wide as Arith>::unit();
    assert(psi(<S::Wide as Arith>::num(1)) == 1real);
    assert(<S::Wide as Arith>::num(1) == one);
    lemma_nonneg(phi(g), phi(before) + psi(small));
    assert(psi(top) >= 0real);
    assert(psi(bottom) > 0real);
    assert(psi(top / bottom) * psi(bottom) == psi(top));
    lemma_quotient(psi(top / bottom), psi(bottom), psi(top));
    let least = (top / bottom).min_of(one);
    assert(0real <= psi(least) <= 1real);
    assert(denoise::carried(g, before, now) == S::narrowed(least));
}

/// Every frame of a stream keeps to the ranges: what the network remembers
/// stays between -1 and 1, the gains and the probability of speech between 0
/// and 1, and the energies do not become negative.
pub proof fn lemma_stream_sound<S: Sample>(
    phi: spec_fn(S) -> real,
    psi: spec_fn(S::Wide) -> real,
    m: &RnnModel,
    st: StreamView<S>,
    x: Seq<S>,
)
    requires
        faithful(phi, psi),
        mild(phi, psi),
        m.wf(),
        st.wf(),
        sound(phi, st),
    ensures
        sound(phi, denoise::frame_step(m, st, x).state),
        0real <= phi(denoise::frame_step(m, st, x).vad) <= 1real,
{
    let (hb, ha) = (common::high_pass_b::<S>(), common::high_pass_a::<S>());
    let f = common::biquad_out(x, st.mem_hp, hb, ha);
    let (frame, found) = denoise::analysis_step(st, f);
    let features = denoise::features_of(frame, found.period);
    let net = denoise::suppressed(m, st.rnn, st.lastg, st.delayed, frame.ex, features);
    let step = rnn::rnn_step(m, st.rnn, features);
    lemma_network_bounded(phi, m, st.rnn, features);
    assert forall|b: int| 0 <= b < NB_BANDS implies phi(#[trigger] frame.ex[b]) >= 0real by {
        reveal(denoise::analysed);
        lemma_energy(phi, frame.x, b);
    }
    assert(phi(S::num(0)) == 0real);
    assert(S::num(0) == S::nil());
    assert(calm(phi, net.rnn) && 0real <= phi(net.vad) <= 1real) by {
        reveal(denoise::suppressed);
    }
    assert forall|b: int| 0 <= b < NB_BANDS implies 0real <= phi(#[trigger] net.lastg[b])
        <= 1real by {
        reveal(denoise::suppressed);
        let g = denoise::smoothed(step.gains[b], st.lastg[b]);
        lemma_smoothed(phi, step.gains[b], st.lastg[b]);
        lemma_carried(phi, psi, g, st.delayed.ex[b], frame.ex[b]);
    }
}

} // verus!
