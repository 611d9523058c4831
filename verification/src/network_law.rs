//! What the layers of the networks compute: a matrix times the input plus a
//! bias, gates that weigh an old state against a new one, and the wiring from
//! features to gains.

use vstd::prelude::*;
use crate::arith::{Arith, Sample, SampleArith};
use crate::dft;
use crate::exact;
use crate::layer::{LayerView, WeightsView};
use crate::legacy::{Act, DenseView, GruView, ModelView};
use crate::legacy_net;
use crate::model::RnnModel;
use crate::model;
use crate::nnet::Activation;
use crate::nnet;
use crate::perfect;
use crate::predictor;
use crate::quantize;
use crate::rnn;
use crate::sparse;

verus! {

/// Weight `k` as it is stored.
pub open spec fn stored<S: Sample>(phi: spec_fn(S) -> real, w: WeightsView, k: int) -> real {
    match w {
        WeightsView::Float(w) => phi(S::decoded(w[k])),
        WeightsView::Q8 { w, scale } => (w[k] as int) as real,
    }
}

/// What block `b` holds for output `i` and input `j`. Its 32 weights are stored
/// column by column.
pub open spec fn block_entry<S: Sample>(
    phi: spec_fn(S) -> real,
    w: WeightsView,
    b: sparse::Block,
    i: int,
    j: int,
) -> real {
    if b.row <= i < b.row + 8 && b.col <= j < b.col + 4 {
        stored::<S>(phi, w, b.weight + 8 * (j - b.col) + (i - b.row))
    } else {
        0real
    }
}

/// The weight of input `j` in output `i`: of a dense layer, which stores its
/// weights input by input, or of the blocks of a sparse one, in units of the
/// output's scale where it has one.
pub open spec fn entry<S: Sample>(
    phi: spec_fn(S) -> real,
    layer: LayerView,
    i: int,
    j: int,
) -> real {
    let plain = match layer.weights_idx {
        None => stored::<S>(phi, layer.weights, j * layer.nb_outputs + i),
        Some(idx) => {
            let blocks = sparse::blocks_of(idx);
            predictor::total(
                |k: int| block_entry::<S>(phi, layer.weights, blocks[k], i, j),
                blocks.len(),
            )
        },
    };
    match layer.weights {
        WeightsView::Float(w) => plain,
        WeightsView::Q8 { w, scale } => plain * phi(S::decoded(scale[i])),
    }
}

/// The integer that a weight is.
proof fn lemma_integer<S: Sample>(phi: spec_fn(S) -> real, k: int)
    requires
        perfect::fractions(phi),
        -0x8000_0000 <= k <= 0x7fff_ffff,
    ensures
        phi(S::num(k)) == k as real,
{
    perfect::lemma_frac(phi, k as i64, 1);
    dft::lemma_units(phi(S::num(k)));
    assert((1i64 as int) as real == 1real);
}

proof fn lemma_stored<S: Sample>(phi: spec_fn(S) -> real, w: WeightsView, k: int)
    requires
        perfect::fractions(phi),
    ensures
        phi(nnet::weight::<S>(w, k)) == stored::<S>(phi, w, k),
{
    if let WeightsView::Q8 { w, scale } = w {
        lemma_integer::<S>(phi, w[k] as int);
    }
}

proof fn lemma_dense_sum<S: Sample>(
    phi: spec_fn(S) -> real,
    w: WeightsView,
    n: int,
    x: Seq<S>,
    i: int,
    m: nat,
)
    requires
        dft::exact(phi),
        exact::counts(phi),
        perfect::fractions(phi),
    ensures
        phi(nnet::dense_sum(w, n, x, i, m)) == predictor::total(
            |j: int| stored::<S>(phi, w, j * n + i) * phi(x[j]),
            m,
        ),
    decreases m,
{
    perfect::lemma_zero_one(phi);
    if m > 0 {
        lemma_dense_sum(phi, w, n, x, i, (m - 1) as nat);
        lemma_stored::<S>(phi, w, (m - 1) * n + i);
    }
}

/// A sum of which only four terms in a row count.
proof fn lemma_four_terms(f: spec_fn(int) -> real, c: int, n: nat)
    requires
        0 <= c,
        c + 4 <= n,
        forall|j: int| 0 <= j < n && !(c <= j < c + 4) ==> #[trigger] f(j) == 0real,
    ensures
        predictor::total(f, n) == f(c) + f(c + 1) + f(c + 2) + f(c + 3),
    decreases n,
{
    if c + 4 < n {
        lemma_four_terms(f, c, (n - 1) as nat);
        assert(f(n - 1) == 0real);
    } else {
        lemma_no_terms(f, c as nat);
        reveal_with_fuel(predictor::total, 5);
    }
}

proof fn lemma_no_terms(f: spec_fn(int) -> real, n: nat)
    requires
        forall|j: int| 0 <= j < n ==> #[trigger] f(j) == 0real,
    ensures
        predictor::total(f, n) == 0real,
    decreases n,
{
    if n > 0 {
        lemma_no_terms(f, (n - 1) as nat);
        assert(f(n - 1) == 0real);
    }
}

/// What a block adds to an output.
proof fn lemma_block_term<S: Sample>(
    phi: spec_fn(S) -> real,
    w: WeightsView,
    b: sparse::Block,
    x: Seq<S>,
    i: int,
    m: nat,
)
    requires
        dft::exact(phi),
        perfect::fractions(phi),
        sparse::in_columns(b, m as int),
    ensures
        predictor::total(|j: int| block_entry::<S>(phi, w, b, i, j) * phi(x[j]), m)
            == if nnet::covers(b, i) {
            phi(nnet::block_term(w, b, x, i))
        } else {
            0real
        },
{
    let f = |j: int| block_entry::<S>(phi, w, b, i, j) * phi(x[j]);
    let c = b.col as int;
    if nnet::covers(b, i) {
        assert forall|j: int| 0 <= j < m && !(c <= j < c + 4) implies #[trigger] f(j) == 0real by {
            dft::lemma_units(phi(x[j]));
        }
        lemma_four_terms(f, c, m);
        let k = b.weight + (i - b.row);
        lemma_stored::<S>(phi, w, k);
        lemma_stored::<S>(phi, w, k + 8);
        lemma_stored::<S>(phi, w, k + 16);
        lemma_stored::<S>(phi, w, k + 24);
    } else {
        assert forall|j: int| 0 <= j < m implies #[trigger] f(j) == 0real by {
            dft::lemma_units(phi(x[j]));
        }
        lemma_no_terms(f, m);
    }
}

proof fn lemma_sparse_sum<S: Sample>(
    phi: spec_fn(S) -> real,
    w: WeightsView,
    blocks: Seq<sparse::Block>,
    x: Seq<S>,
    i: int,
    m: nat,
    count: nat,
)
    requires
        dft::exact(phi),
        exact::counts(phi),
        perfect::fractions(phi),
        count <= blocks.len(),
        forall|k: int|
            0 <= k < blocks.len() ==> sparse::in_columns(#[trigger] blocks[k], m as int),
    ensures
        phi(nnet::sparse_sum(w, blocks, x, i, count)) == predictor::total(
            |j: int|
                predictor::total(
                    |k: int| block_entry::<S>(phi, w, blocks[k], i, j),
                    count,
                ) * phi(x[j]),
            m,
        ),
    decreases count,
{
    perfect::lemma_zero_one(phi);
    let h = |j: int|
        predictor::total(|k: int| block_entry::<S>(phi, w, blocks[k], i, j), count) * phi(x[j]);
    if count == 0 {
        assert forall|j: int| 0 <= j < m implies #[trigger] h(j) == 0real by {
            dft::lemma_units(phi(x[j]));
        }
        lemma_no_terms(h, m);
    } else {
        let c = (count - 1) as nat;
        lemma_sparse_sum(phi, w, blocks, x, i, m, c);
        let b = blocks[c as int];
        assert(sparse::in_columns(b, m as int));
        lemma_block_term(phi, w, b, x, i, m);
        let f = |j: int|
            predictor::total(|k: int| block_entry::<S>(phi, w, blocks[k], i, j), c) * phi(x[j]);
        let g = |j: int| block_entry::<S>(phi, w, b, i, j) * phi(x[j]);
        assert forall|j: int| 0 <= j < m implies #[trigger] h(j) == f(j) + 1real * g(j) by {
            let e = |k: int| block_entry::<S>(phi, w, blocks[k], i, j);
            assert(predictor::total(e, count) == predictor::total(e, c) + e(c as int));
            dft::lemma_dist(predictor::total(e, c), e(c as int), phi(x[j]));
            dft::lemma_units(g(j));
        }
        predictor::lemma_total_mix(f, g, h, 1real, m);
        dft::lemma_units(predictor::total(g, m));
    }
}

/// A layer is a matrix times the input, plus the bias, plus the diagonal times
/// the input for each third of the outputs where the layer has one.
pub proof fn lemma_affine<S: Sample>(
    phi: spec_fn(S) -> real,
    layer: LayerView,
    x: Seq<S>,
    i: int,
)
    requires
        dft::exact(phi),
        exact::counts(phi),
        perfect::fractions(phi),
        layer.columns_ok(),
        0 <= i < layer.nb_outputs,
    ensures
        nnet::affine(layer, x).len() == layer.nb_outputs,
        phi(nnet::affine(layer, x)[i]) == predictor::total(
            |j: int| entry::<S>(phi, layer, i, j) * phi(x[j]),
            layer.nb_inputs,
        ) + phi(S::decoded(layer.bias[i])) + match layer.diag {
            None => 0real,
            Some(d) => phi(S::decoded(d[i])) * phi(x[i % (layer.nb_inputs as int)]),
        },
{
    let w = layer.weights;
    let m = layer.nb_inputs;
    let plain = |j: int|
        match layer.weights_idx {
            None => stored::<S>(phi, w, j * layer.nb_outputs + i) * phi(x[j]),
            Some(idx) => {
                let blocks = sparse::blocks_of(idx);
                predictor::total(
                    |k: int| block_entry::<S>(phi, w, blocks[k], i, j),
                    blocks.len(),
                ) * phi(x[j])
            },
        };
    let full = |j: int| entry::<S>(phi, layer, i, j) * phi(x[j]);
    let sum = match layer.weights_idx {
        None => nnet::dense_sum(w, layer.nb_outputs as int, x, i, m),
        Some(idx) => nnet::sparse_sum(
            w,
            sparse::blocks_of(idx),
            x,
            i,
            sparse::blocks_of(idx).len(),
        ),
    };
    assert(phi(sum) == predictor::total(plain, m)) by {
        match layer.weights_idx {
            None => {
                lemma_dense_sum(phi, w, layer.nb_outputs as int, x, i, m);
                let f = |j: int| stored::<S>(phi, w, j * layer.nb_outputs as int + i) * phi(x[j]);
                predictor::lemma_total_same(f, plain, m);
            },
            Some(idx) => {
                let blocks = sparse::blocks_of(idx);
                lemma_sparse_sum(phi, w, blocks, x, i, m, blocks.len());
                let f = |j: int|
                    predictor::total(
                        |k: int| block_entry::<S>(phi, w, blocks[k], i, j),
                        blocks.len(),
                    ) * phi(x[j]);
                predictor::lemma_total_same(f, plain, m);
            },
        }
    }
    match w {
        WeightsView::Float(f) => {
            predictor::lemma_total_same(plain, full, m);
        },
        WeightsView::Q8 { w: q, scale } => {
            let c = phi(S::decoded(scale[i]));
            let zero = |j: int| 0real;
            assert forall|j: int| 0 <= j < m implies #[trigger] full(j) == zero(j) + c * plain(
                j,
            ) by {
                lemma_rescale(phi, layer, x, i, j);
            }
            predictor::lemma_total_mix(zero, plain, full, c, m);
            lemma_no_terms(zero, m);
            dft::lemma_comm(phi(sum), c);
        },
    }
}

proof fn lemma_rescale<S: Sample>(
    phi: spec_fn(S) -> real,
    layer: LayerView,
    x: Seq<S>,
    i: int,
    j: int,
)
    requires
        layer.weights is Q8,
    ensures
        entry::<S>(phi, layer, i, j) * phi(x[j]) == phi(
            S::decoded(layer.weights->Q8_scale[i]),
        ) * (match layer.weights_idx {
            None => stored::<S>(phi, layer.weights, j * layer.nb_outputs + i) * phi(x[j]),
            Some(idx) => {
                let blocks = sparse::blocks_of(idx);
                predictor::total(
                    |k: int| block_entry::<S>(phi, layer.weights, blocks[k], i, j),
                    blocks.len(),
                ) * phi(x[j])
            },
        }),
{
    let c = phi(S::decoded(layer.weights->Q8_scale[i]));
    let p = match layer.weights_idx {
        None => stored::<S>(phi, layer.weights, j * layer.nb_outputs + i),
        Some(idx) => {
            let blocks = sparse::blocks_of(idx);
            predictor::total(
                |k: int| block_entry::<S>(phi, layer.weights, blocks[k], i, j),
                blocks.len(),
            )
        },
    };
    let v = phi(x[j]);
    assert((p * c) * v == c * (p * v)) by (nonlinear_arith);
}

/// The denominator of the approximation of the hyperbolic tangent, times 10^8.
pub open spec fn tanh_bottom(v: real) -> real {
    (1188600922real * (v * v) + 41336801147real) * (v * v) + 95272399902real
}

/// The numerator, times 10^8.
pub open spec fn tanh_top(v: real) -> real {
    ((60863042real * (v * v) + 9639235687real) * (v * v) + 95252801514real) * v
}

/// `t` is the approximation of the hyperbolic tangent of `v`: a quotient of
/// polynomials, kept between minus one and one.
pub open spec fn tanh_like(v: real, t: real) -> bool {
    &&& tanh_bottom(v) > 0real
    &&& tanh_top(v) > tanh_bottom(v) ==> t == 1real
    &&& tanh_top(v) < -tanh_bottom(v) ==> t == -1real
    &&& -tanh_bottom(v) <= tanh_top(v) <= tanh_bottom(v) ==> t * tanh_bottom(v) == tanh_top(v)
}

proof fn lemma_quadratic(c2: real, c1: real, c0: real, a2: real, a1: real, a0: real, q: real)
    requires
        c2 * 100000000real == a2,
        c1 * 100000000real == a1,
        c0 * 100000000real == a0,
    ensures
        ((c2 * q + c1) * q + c0) * 100000000real == (a2 * q + a1) * q + a0,
{
    assert(((c2 * q + c1) * q + c0) * 100000000real == ((c2 * 100000000real) * q + c1
        * 100000000real) * q + c0 * 100000000real) by (nonlinear_arith);
}

proof fn lemma_bottom_positive(v: real)
    ensures
        tanh_bottom(v) > 0real,
{
    exact::lemma_square_nonneg(v);
    let q = v * v;
    assert((1188600922real * q + 41336801147real) * q >= 0real) by (nonlinear_arith)
        requires
            q >= 0real,
    ;
}

/// A quotient against its limits.
proof fn lemma_limited(t: real, top: real, bottom: real)
    requires
        t * bottom == top,
        bottom > 0real,
    ensures
        top > bottom <==> t > 1real,
        top < -bottom <==> t < -1real,
{
    if t > 1real {
        assert(t * bottom > bottom) by (nonlinear_arith)
            requires
                t > 1real,
                bottom > 0real,
        ;
    } else {
        assert(t * bottom <= bottom) by (nonlinear_arith)
            requires
                t <= 1real,
                bottom > 0real,
        ;
    }
    if t < -1real {
        assert(t * bottom < -bottom) by (nonlinear_arith)
            requires
                t < -1real,
                bottom > 0real,
        ;
    } else {
        assert(t * bottom >= -bottom) by (nonlinear_arith)
            requires
                t >= -1real,
                bottom > 0real,
        ;
    }
}

/// The activations are the approximation of the hyperbolic tangent, and the
/// logistic function by way of it.
pub proof fn lemma_activation<S: Sample>(phi: spec_fn(S) -> real, x: S)
    requires
        dft::exact(phi),
        exact::divides(phi),
        exact::counts(phi),
        exact::compares(phi),
        perfect::fractions(phi),
    ensures
        tanh_like(phi(x), phi(nnet::tanh_of(x))),
        exists|t: real| #[trigger]
            tanh_like(phi(x) / 2real, t) && phi(nnet::sigmoid_of(x)) == (1real + t) / 2real,
{
    lemma_tanh(phi, x);
    let half = S::frac(1, 2);
    lemma_tanh(phi, half * x);
    let t = phi(nnet::tanh_of(half * x));
    assert(phi(half) == 1real / 2real);
    assert(phi(half * x) == phi(x) / 2real);
    assert(phi(half * nnet::tanh_of(half * x)) == t / 2real);
}

proof fn lemma_tanh<S: Sample>(phi: spec_fn(S) -> real, x: S)
    requires
        dft::exact(phi),
        exact::divides(phi),
        exact::counts(phi),
        exact::compares(phi),
        perfect::fractions(phi),
    ensures
        tanh_like(phi(x), phi(nnet::tanh_of(x))),
{
    perfect::lemma_zero_one(phi);
    assert(phi(S::num(-1)) == -1real);
    let v = phi(x);
    let q = v * v;
    let x2 = x * x;
    let num = (S::frac(60863042, 100000000) * x2 + S::frac(9639235687, 100000000)) * x2 + S::frac(
        95252801514,
        100000000,
    );
    let den = (S::frac(1188600922, 100000000) * x2 + S::frac(41336801147, 100000000)) * x2
        + S::frac(95272399902, 100000000);
    perfect::lemma_frac::<S>(phi, 60863042, 100000000);
    perfect::lemma_frac::<S>(phi, 9639235687, 100000000);
    perfect::lemma_frac::<S>(phi, 95252801514, 100000000);
    perfect::lemma_frac::<S>(phi, 1188600922, 100000000);
    perfect::lemma_frac::<S>(phi, 41336801147, 100000000);
    perfect::lemma_frac::<S>(phi, 95272399902, 100000000);
    lemma_quadratic(
        phi(S::frac(60863042, 100000000)),
        phi(S::frac(9639235687, 100000000)),
        phi(S::frac(95252801514, 100000000)),
        60863042real,
        9639235687real,
        95252801514real,
        q,
    );
    lemma_quadratic(
        phi(S::frac(1188600922, 100000000)),
        phi(S::frac(41336801147, 100000000)),
        phi(S::frac(95272399902, 100000000)),
        1188600922real,
        41336801147real,
        95272399902real,
        q,
    );
    let (n, d) = (phi(num), phi(den));
    assert(phi(x2) == q);
    assert(n == (phi(S::frac(60863042, 100000000)) * q + phi(S::frac(9639235687, 100000000))) * q
        + phi(S::frac(95252801514, 100000000)));
    assert(d * 100000000real == tanh_bottom(v));
    lemma_bottom_positive(v);
    let t = phi(num * x / den);
    assert(t * d == phi(num * x));
    assert(t * tanh_bottom(v) == tanh_top(v)) by {
        dft::lemma_assoc(t, d, 100000000real);
        assert((n * v) * 100000000real == (n * 100000000real) * v) by (nonlinear_arith);
    }
    lemma_limited(t, tanh_top(v), tanh_bottom(v));
}

/// Neuron `i` of a recurrent unit with `n` neurons. Outputs `i`, `n + i` and
/// `2 * n + i` of its two layers belong to it: the update gate weighs the old
/// state against the candidate, and the reset gate weighs what the recurrent
/// layer has in the candidate. Where the update gate is one the state stays, and
/// where it is zero the state is the candidate.
pub proof fn lemma_gru_neuron<S: Sample>(
    phi: spec_fn(S) -> real,
    input_w: LayerView,
    recurrent_w: LayerView,
    state: Seq<S>,
    x: Seq<S>,
    i: int,
)
    requires
        dft::exact(phi),
        exact::counts(phi),
        recurrent_w.nb_inputs <= state.len(),
        0 <= i < recurrent_w.nb_inputs,
    ensures
        ({
            let n = recurrent_w.nb_inputs as int;
            let a = nnet::affine(input_w, x);
            let r = nnet::affine(recurrent_w, state);
            let update = nnet::sigmoid_of(a[i] + r[i]);
            let reset = nnet::sigmoid_of(a[n + i] + r[n + i]);
            let candidate = nnet::tanh_of(a[2 * n + i] + r[2 * n + i] * reset);
            let new = nnet::gru(input_w, recurrent_w, state, x);
            &&& new.len() == state.len()
            &&& phi(new[i]) == phi(update) * phi(state[i]) + (1real - phi(update)) * phi(candidate)
            &&& phi(update) == 1real ==> phi(new[i]) == phi(state[i])
            &&& phi(update) == 0real ==> phi(new[i]) == phi(candidate)
            &&& forall|k: int| n <= k < state.len() ==> #[trigger] new[k] == state[k]
        }),
{
    perfect::lemma_zero_one(phi);
    let n = recurrent_w.nb_inputs as int;
    let a = nnet::affine(input_w, x);
    let r = nnet::affine(recurrent_w, state);
    let update = nnet::sigmoid_of(a[i] + r[i]);
    let reset = nnet::sigmoid_of(a[n + i] + r[n + i]);
    let candidate = nnet::tanh_of(a[2 * n + i] + r[2 * n + i] * reset);
    dft::lemma_units(phi(state[i]));
    dft::lemma_units(phi(candidate));
    assert(phi(S::unit() - update) == 1real - phi(update));
    let new = nnet::gru(input_w, recurrent_w, state, x);
    assert(new[i] == update * state[i] + (S::unit() - update) * candidate);
}

/// The bias of the first third of the outputs of the input layer reaches the
/// update gates and nothing else: two input layers that differ in it alone move
/// the state toward the same candidate, each as far as its gate lets it.
pub proof fn lemma_update_bias<S: Sample>(
    phi: spec_fn(S) -> real,
    one: LayerView,
    two: LayerView,
    recurrent_w: LayerView,
    state: Seq<S>,
    x: Seq<S>,
    i: int,
)
    requires
        dft::exact(phi),
        exact::counts(phi),
        recurrent_w.nb_inputs <= state.len(),
        one.nb_outputs == 3 * recurrent_w.nb_inputs,
        two == (LayerView { bias: two.bias, ..one }),
        forall|k: int|
            recurrent_w.nb_inputs <= k < 3 * recurrent_w.nb_inputs ==> #[trigger] two.bias[k]
                == one.bias[k],
        0 <= i < recurrent_w.nb_inputs,
    ensures
        ({
            let r = nnet::affine(recurrent_w, state)[i];
            let z1 = phi(nnet::sigmoid_of(nnet::affine(one, x)[i] + r));
            let z2 = phi(nnet::sigmoid_of(nnet::affine(two, x)[i] + r));
            let new1 = phi(nnet::gru(one, recurrent_w, state, x)[i]);
            let new2 = phi(nnet::gru(two, recurrent_w, state, x)[i]);
            (new1 - phi(state[i])) * (1real - z2) == (new2 - phi(state[i])) * (1real - z1)
        }),
{
    let n = recurrent_w.nb_inputs as int;
    let (a, b) = (nnet::affine(one, x), nnet::affine(two, x));
    assert(two.bias[n + i] == one.bias[n + i]);
    assert(two.bias[2 * n + i] == one.bias[2 * n + i]);
    assert(nnet::product_row(one, x, n + i) == nnet::product_row(two, x, n + i));
    assert(nnet::product_row(one, x, 2 * n + i) == nnet::product_row(two, x, 2 * n + i));
    assert(a[n + i] == b[n + i]);
    assert(a[2 * n + i] == b[2 * n + i]);
    let r = nnet::affine(recurrent_w, state);
    let reset = nnet::sigmoid_of(a[n + i] + r[n + i]);
    let h = phi(nnet::tanh_of(a[2 * n + i] + r[2 * n + i] * reset));
    lemma_gru_neuron(phi, one, recurrent_w, state, x, i);
    lemma_gru_neuron(phi, two, recurrent_w, state, x, i);
    let z1 = phi(nnet::sigmoid_of(a[i] + r[i]));
    let z2 = phi(nnet::sigmoid_of(b[i] + r[i]));
    let new1 = phi(nnet::gru(one, recurrent_w, state, x)[i]);
    let new2 = phi(nnet::gru(two, recurrent_w, state, x)[i]);
    lemma_same_candidate(phi(state[i]), h, z1, z2, new1, new2);
}

proof fn lemma_same_candidate(s: real, h: real, z1: real, z2: real, new1: real, new2: real)
    requires
        new1 == z1 * s + (1real - z1) * h,
        new2 == z2 * s + (1real - z2) * h,
    ensures
        (new1 - s) * (1real - z2) == (new2 - s) * (1real - z1),
{
    assert(z1 * s + (1real - z1) * h - s == (1real - z1) * (h - s)) by (nonlinear_arith);
    assert(z2 * s + (1real - z2) * h - s == (1real - z2) * (h - s)) by (nonlinear_arith);
    let (a, b, d) = (1real - z1, 1real - z2, h - s);
    assert((a * d) * b == (b * d) * a) by (nonlinear_arith);
}

/// A convolution sees what it remembers and then the new samples, and remembers
/// the last of them.
pub proof fn lemma_convolution<S>(mem: Seq<S>, x: Seq<S>, size: int, k: int)
    requires
        0 <= size <= x.len(),
    ensures
        nnet::conv_input(mem, x, size, mem.len() as int).len() == mem.len() + size,
        0 <= k < mem.len() ==> nnet::conv_input(mem, x, size, mem.len() as int)[k] == mem[k],
        0 <= k < size ==> nnet::conv_input(mem, x, size, mem.len() as int)[mem.len() + k] == x[k],
        nnet::conv_memory(mem, x, size, mem.len() as int).len() == mem.len(),
        0 <= k < mem.len() ==> nnet::conv_memory(mem, x, size, mem.len() as int)[k] == if k + size
            < mem.len() {
            mem[k + size]
        } else {
            x[k + size - mem.len()]
        },
{
}

/// The wiring of the network. The first convolution sees the features of three
/// frames, the second what the first gave for three frames, and each recurrent
/// unit what the stage before it gives. Gains and the probability of speech are
/// logistic functions of the output layers, which see the second convolution and
/// all three units, in this order.
pub proof fn lemma_wiring<S: Sample>(m: &RnnModel, st: rnn::RnnView<S>, x: Seq<S>)
    requires
        m.wf(),
        st.wf(),
        x.len() == 65,
    ensures
        ({
            let step = rnn::rnn_step(m, st, x);
            let c1 = step.state.conv2.skip(128);
            let c2 = Seq::new(
                384,
                |i: int| nnet::tanh_of(nnet::affine(m.conv2@, st.conv2 + c1)[i]),
            );
            let seen = c2 + step.state.gru1 + step.state.gru2 + step.state.gru3;
            &&& step.state.wf()
            &&& step.state.conv1 == st.conv1.skip(65) + x
            &&& step.state.conv2.take(128) == st.conv2.skip(128)
            &&& forall|i: int|
                0 <= i < 128 ==> #[trigger] c1[i] == nnet::tanh_of(
                    nnet::affine(m.conv1@, st.conv1 + x)[i],
                )
            &&& step.state.gru1 == nnet::gru(m.gru1_input@, m.gru1_recurrent@, st.gru1, c2)
            &&& step.state.gru2 == nnet::gru(
                m.gru2_input@,
                m.gru2_recurrent@,
                st.gru2,
                step.state.gru1,
            )
            &&& step.state.gru3 == nnet::gru(
                m.gru3_input@,
                m.gru3_recurrent@,
                st.gru3,
                step.state.gru2,
            )
            &&& step.gains.len() == 32
            &&& forall|b: int|
                0 <= b < 32 ==> #[trigger] step.gains[b] == nnet::sigmoid_of(
                    nnet::affine(m.dense_out@, seen)[b],
                )
            &&& step.vad == nnet::sigmoid_of(nnet::affine(m.vad_dense@, seen)[0])
        }),
{
    let l = model::layers_of(m);
    assert(l[0] == m.conv1@ && l[1] == m.conv2@ && l[8] == m.dense_out@ && l[9] == m.vad_dense@);
    let step = rnn::rnn_step(m, st, x);
    let in1 = nnet::conv_input(st.conv1, x, 65, 130);
    assert(in1 == st.conv1 + x);
    let first = nnet::dense(m.conv1@, in1, Activation::Tanh);
    let in2 = nnet::conv_input(st.conv2, first, 128, 256);
    assert(step.state.conv1 == st.conv1.skip(65) + x);
    let c1 = step.state.conv2.skip(128);
    assert(c1 == first);
    assert(in2 == st.conv2 + c1);
    let c2 = Seq::new(384, |i: int| nnet::tanh_of(nnet::affine(m.conv2@, st.conv2 + c1)[i]));
    assert(nnet::dense(m.conv2@, in2, Activation::Tanh) == c2);
    assert(step.state.conv2.take(128) == st.conv2.skip(128));
}

/// A sum of weights times inputs, as the smaller network forms it.
pub proof fn lemma_weighted_sum<S: Sample>(
    phi: spec_fn(S) -> real,
    init: S,
    w: Seq<i8>,
    stride: int,
    offset: int,
    x: Seq<S>,
    m: nat,
)
    requires
        dft::exact(phi),
        perfect::fractions(phi),
    ensures
        phi(legacy_net::weighted_sum(init, w, stride, offset, x, m)) == phi(init)
            + predictor::total(|j: int| (w[j * stride + offset] as int) as real * phi(x[j]), m),
    decreases m,
{
    if m > 0 {
        lemma_weighted_sum(phi, init, w, stride, offset, x, (m - 1) as nat);
        lemma_integer::<S>(phi, w[(m - 1) * stride + offset] as int);
    }
}

/// A dense layer of the smaller network: the activation of the bias plus the
/// weights times the input, over 256. The weights are stored input by input.
pub proof fn lemma_few_dense<S: Sample>(
    phi: spec_fn(S) -> real,
    l: DenseView,
    x: Seq<S>,
    i: int,
)
    requires
        dft::exact(phi),
        perfect::fractions(phi),
        0 <= i < l.nb_neurons,
    ensures
        legacy_net::dense_out(l, x).len() == l.nb_neurons,
        exists|a: S|
            legacy_net::dense_out(l, x)[i] == #[trigger] legacy_net::applied(l.activation, a)
                && phi(a) * 256real == (l.bias[i] as int) as real + predictor::total(
                |j: int| (l.weights[j * l.nb_neurons + i] as int) as real * phi(x[j]),
                l.nb_inputs,
            ),
{
    let n = l.nb_neurons as int;
    let b = S::num(l.bias[i] as int);
    let sum = legacy_net::weighted_sum(b, l.weights, n, i, x, l.nb_inputs);
    lemma_weighted_sum(phi, b, l.weights, n, i, x, l.nb_inputs);
    lemma_integer::<S>(phi, l.bias[i] as int);
    perfect::lemma_frac::<S>(phi, 1, 256);
    let a = sum * S::frac(1, 256);
    dft::lemma_assoc(phi(sum), phi(S::frac(1, 256)), 256real);
    dft::lemma_units(phi(sum));
    let f = |j: int| (l.weights[j * n + i] as int) as real * phi(x[j]);
    let g = |j: int| (l.weights[j * l.nb_neurons + i] as int) as real * phi(x[j]);
    predictor::lemma_total_same(f, g, l.nb_inputs);
    assert(legacy_net::dense_out(l, x)[i] == legacy_net::applied(l.activation, a));
}

/// What reaches output `o` of the three gates of a recurrent layer of the
/// smaller network, times 256: the bias, the quantised input times its unit and
/// its weights, which are stored output by output, and the vector `h` times its
/// weights, which are stored input by input.
pub open spec fn gate_value<S: Sample>(
    phi: spec_fn(S) -> real,
    l: GruView,
    x: Seq<S>,
    h: Seq<S>,
    o: int,
) -> real {
    let part = x.take(l.nb_inputs as int);
    let q = legacy_net::quantised(part);
    (l.bias[o] as int) as real + phi(legacy_net::unit_of(part)) * predictor::total(
        |k: int|
            (l.input_weights_t[o * l.nb_inputs + k] as int) as real * ((q[k] as int) as real),
        l.nb_inputs,
    ) + predictor::total(
        |j: int| (l.recurrent_weights[j * (3 * l.nb_neurons) + o] as int) as real * phi(h[j]),
        l.nb_neurons,
    )
}

proof fn lemma_int_dot(a: Seq<i8>, ao: int, b: Seq<i8>, n: nat)
    ensures
        legacy_net::int_dot(a, ao, b, n) as real == predictor::total(
            |k: int| (a[ao + k] as int) as real * ((b[k] as int) as real),
            n,
        ),
        -0x4000 * n <= legacy_net::int_dot(a, ao, b, n) <= 0x4000 * n,
    decreases n,
{
    if n > 0 {
        lemma_int_dot(a, ao, b, (n - 1) as nat);
        let x = a[ao + n - 1] as int;
        let y = b[n - 1] as int;
        assert(a[ao + (n - 1)] == a[ao + n - 1]);
        assert(-0x4000 <= x * y <= 0x4000) by (nonlinear_arith)
            requires
                -128 <= x <= 127,
                -128 <= y <= 127,
        ;
        lemma_real_product(x, y);
        lemma_real_sum(legacy_net::int_dot(a, ao, b, (n - 1) as nat), x * y);
    }
}

proof fn lemma_real_sum(x: int, y: int)
    ensures
        (x + y) as real == x as real + y as real,
{
}

/// Integers multiply as real numbers do.
proof fn lemma_real_product(x: int, y: int)
    ensures
        (x * y) as real == x as real * (y as real),
    decreases if y < 0 {
        -y
    } else {
        y
    },
{
    if y == 0 {
        assert(x * y == 0) by (nonlinear_arith)
            requires
                y == 0,
        ;
        dft::lemma_units(x as real);
    } else if y > 0 {
        lemma_real_product(x, y - 1);
        assert(x * y == x * (y - 1) + x) by (nonlinear_arith);
        lemma_real_sum(x * (y - 1), x);
        lemma_real_sum(y - 1, 1);
        dft::lemma_dist((y - 1) as real, 1real, x as real);
        dft::lemma_units(x as real);
    } else {
        lemma_real_product(x, y + 1);
        assert(x * y == x * (y + 1) - x) by (nonlinear_arith);
        lemma_real_sum(x * y, x);
        lemma_real_sum(y, 1);
        dft::lemma_dist(y as real, 1real, x as real);
        dft::lemma_units(x as real);
    }
}

/// A gate of neuron `i` of a recurrent layer before its activation: `gate` is 0
/// for the update gate, 1 for the reset gate and 2 for the candidate.
pub proof fn lemma_gate<S: Sample>(
    phi: spec_fn(S) -> real,
    l: GruView,
    x: Seq<S>,
    h: Seq<S>,
    gate: int,
    i: int,
)
    requires
        dft::exact(phi),
        perfect::fractions(phi),
        l.nb_inputs <= 127,
    ensures
        phi(legacy_net::gate_sum(l, x, h, gate, i)) * 256real == gate_value(
            phi,
            l,
            x,
            h,
            gate * l.nb_neurons + i,
        ),
{
    let n = l.nb_neurons as int;
    let o = gate * n + i;
    let ni = l.nb_inputs;
    let part = x.take(ni as int);
    let q = legacy_net::quantised(part);
    let dot = legacy_net::int_dot(l.input_weights_t, o * ni, q, ni);
    lemma_int_dot(l.input_weights_t, o * ni, q, ni);
    lemma_integer::<S>(phi, dot);
    lemma_integer::<S>(phi, l.bias[o] as int);
    let init = legacy_net::gate_input(l, x, o);
    let u = phi(legacy_net::unit_of(part));
    dft::lemma_comm(dot as real, u);
    assert(phi(init) == (l.bias[o] as int) as real + u * (dot as real));
    let sum = legacy_net::weighted_sum(init, l.recurrent_weights, 3 * n, o, h, l.nb_neurons);
    lemma_weighted_sum(phi, init, l.recurrent_weights, 3 * n, o, h, l.nb_neurons);
    perfect::lemma_frac::<S>(phi, 1, 256);
    dft::lemma_assoc(phi(sum), phi(S::frac(1, 256)), 256real);
    dft::lemma_units(phi(sum));
    let f = |k: int| (l.input_weights_t[o * ni + k] as int) as real * ((q[k] as int) as real);
    let f2 = |k: int|
        (l.input_weights_t[o * l.nb_inputs + k] as int) as real * ((q[k] as int) as real);
    predictor::lemma_total_same(f, f2, ni);
    let g = |j: int| (l.recurrent_weights[j * (3 * n) + o] as int) as real * phi(h[j]);
    let g2 = |j: int|
        (l.recurrent_weights[j * (3 * l.nb_neurons) + o] as int) as real * phi(h[j]);
    predictor::lemma_total_same(g, g2, l.nb_neurons);
}

/// Neuron `i` of a recurrent layer of the smaller network: the update gate weighs
/// the old state against the candidate, which sees the states after their reset
/// gates. Where the update gate is one the state stays, and where it is zero the
/// state is the candidate.
pub proof fn lemma_few_gru_neuron<S: Sample>(
    phi: spec_fn(S) -> real,
    l: GruView,
    state: Seq<S>,
    x: Seq<S>,
    i: int,
)
    requires
        dft::exact(phi),
        exact::counts(phi),
        l.nb_neurons <= state.len(),
        0 <= i < l.nb_neurons,
    ensures
        ({
            let n = l.nb_neurons as int;
            let reset = Seq::new(
                l.nb_neurons,
                |k: int|
                    state[k] * legacy_net::sigmoid_of(legacy_net::gate_sum(l, x, state, 1, k)),
            );
            let update = phi(legacy_net::sigmoid_of(legacy_net::gate_sum(l, x, state, 0, i)));
            let candidate = phi(
                legacy_net::applied(l.activation, legacy_net::gate_sum(l, x, reset, 2, i)),
            );
            let new = legacy_net::gru_out(l, state, x);
            &&& new.len() == state.len()
            &&& phi(new[i]) == update * phi(state[i]) + (1real - update) * candidate
            &&& update == 1real ==> phi(new[i]) == phi(state[i])
            &&& update == 0real ==> phi(new[i]) == candidate
            &&& forall|k: int| n <= k < state.len() ==> #[trigger] new[k] == state[k]
        }),
{
    perfect::lemma_zero_one(phi);
    let r = legacy_net::reset_state(l, state, x);
    assert(r == Seq::new(
        l.nb_neurons,
        |k: int| state[k] * legacy_net::sigmoid_of(legacy_net::gate_sum(l, x, state, 1, k)),
    ));
    let new = legacy_net::gru_out(l, state, x);
    let z = legacy_net::sigmoid_of(legacy_net::gate_sum(l, x, state, 0, i));
    let h = legacy_net::applied(l.activation, legacy_net::gate_sum(l, x, r, 2, i));
    assert(new[i] == z * state[i] + (S::unit() - z) * h);
    assert(phi(S::unit() - z) == 1real - phi(z));
    dft::lemma_units(phi(state[i]));
    dft::lemma_units(phi(h));
}

/// The wiring of the smaller network. The recurrent layers see, one after
/// another, the dense layer; the dense layer, the first state and the features;
/// and the first two states and the features. The gains come from the third
/// state, the probability of speech from the first.
pub proof fn lemma_few_wiring<S: Sample>(
    m: ModelView,
    st: legacy_net::StateView<S>,
    x: Seq<S>,
)
    ensures
        ({
            let step = legacy_net::net_step(m, st, x);
            let d = legacy_net::dense_out(m.input_dense, x);
            let (v, n, h) = (step.state.vad, step.state.noise, step.state.denoise);
            &&& v == legacy_net::gru_out(m.vad_gru, st.vad, d)
            &&& n == legacy_net::gru_out(m.noise_gru, st.noise, d + v + x)
            &&& h == legacy_net::gru_out(m.denoise_gru, st.denoise, v + n + x)
            &&& step.gains == legacy_net::dense_out(m.denoise_output, h)
            &&& step.vad == legacy_net::dense_out(m.vad_output, v)[0]
        }),
{
}

/// The activations of the smaller network: the logistic function is taken by way
/// of the hyperbolic tangent, and the third is the positive part.
pub proof fn lemma_few_activation<S: Sample>(phi: spec_fn(S) -> real, x: S)
    requires
        dft::exact(phi),
        exact::counts(phi),
        exact::compares(phi),
    ensures
        legacy_net::applied(Act::Tanh, x) == legacy_net::tansig_of(x),
        phi(legacy_net::applied(Act::Sigmoid, x)) == (1real + phi(
            legacy_net::tansig_of(S::frac(1, 2) * x),
        )) / 2real,
        phi(legacy_net::applied(Act::Relu, x)) == perfect::larger(phi(x), 0real),
{
    perfect::lemma_zero_one(phi);
    assert(phi(S::frac(1, 2)) == 1real / 2real);
    let t = legacy_net::tansig_of(S::frac(1, 2) * x);
    assert(phi(S::frac(1, 2) * t) == phi(t) / 2real);
}

/// The largest magnitude is that of an element, and no element exceeds it.
proof fn lemma_largest<S: Sample>(phi: spec_fn(S) -> real, x: Seq<S>, n: nat)
    requires
        quantize::exact_rounding(phi),
    ensures
        phi(legacy_net::largest(x, n)) >= 0real,
        forall|i: int|
            0 <= i < n ==> quantize::within(
                phi(#[trigger] x[i]),
                phi(legacy_net::largest(x, n)),
            ),
    decreases n,
{
    if n > 0 {
        lemma_largest(phi, x, (n - 1) as nat);
        let before = legacy_net::largest(x, (n - 1) as nat);
        let m = before.max_of(x[n - 1].abs_of());
        assert(phi(before) <= phi(m));
        assert forall|i: int| 0 <= i < n implies quantize::within(phi(#[trigger] x[i]), phi(m)) by {
            if i < n - 1 {
                assert(quantize::within(phi(x[i]), phi(before)));
            }
        }
    }
}

/// A vector is close to its quantised form: each element is its integer times
/// the unit, to within half a unit. The unit is the largest magnitude over 127.
pub proof fn lemma_few_quantised<S: Sample>(phi: spec_fn(S) -> real, x: Seq<S>, i: int)
    requires
        dft::exact(phi),
        quantize::exact_rounding(phi),
        forall|a: S, b: S| #[trigger] a.eq_of(b) <==> phi(a) == phi(b),
        0 <= i < x.len(),
    ensures
        ({
            let q = legacy_net::quantised(x);
            let unit = phi(legacy_net::unit_of(x));
            &&& q.len() == x.len()
            &&& unit * 127real == phi(legacy_net::largest(x, x.len()))
            &&& unit >= 0real
            &&& quantize::within(
                2real * (phi(x[i]) - (q[i] as int) as real * unit),
                unit,
            )
        }),
{
    lemma_largest(phi, x, x.len());
    let big = legacy_net::largest(x, x.len());
    let m = phi(big);
    let v = phi(x[i]);
    assert(quantize::within(v, m));
    let q = legacy_net::quantised(x)[i];
    let unit = phi(legacy_net::unit_of(x));
    if big.eq_of(S::nil()) {
        dft::lemma_units((q as int) as real);
    } else {
        assert(m > 0real);
        let c = S::num(127) / big;
        let y = x[i] * c;
        assert(phi(c) * m == 127real);
        assert(phi(y) == v * phi(c));
        assert(unit * 127real == m);
        dft::lemma_assoc(v, phi(c), m);
        assert(phi(y) * m == v * 127real);
        lemma_scaled_range(phi(y), m, v);
        let n = y.nearest() as int;
        assert(n as real * 2real - 1real <= phi(y) * 2real <= n as real * 2real + 1real);
        assert(-127 <= n <= 127);
        assert(q as int == n);
        lemma_half_unit(phi(y), n as real, unit, m, v);
    }
}

proof fn lemma_scaled_range(y: real, m: real, v: real)
    requires
        m > 0real,
        -m <= v <= m,
        y * m == v * 127real,
    ensures
        -127real <= y <= 127real,
{
    if y > 127real {
        assert(y * m > 127real * m) by (nonlinear_arith)
            requires
                y > 127real,
                m > 0real,
        ;
    }
    if y < -127real {
        assert(y * m < -127real * m) by (nonlinear_arith)
            requires
                y < -127real,
                m > 0real,
        ;
    }
}

proof fn lemma_half_unit(y: real, n: real, unit: real, m: real, v: real)
    requires
        m > 0real,
        unit * 127real == m,
        y * m == v * 127real,
        n * 2real - 1real <= y * 2real <= n * 2real + 1real,
    ensures
        unit >= 0real,
        -unit <= 2real * (v - n * unit) <= unit,
{
    assert(y * unit == v) by {
        dft::lemma_assoc(y, unit, 127real);
        perfect::lemma_same_multiple(y * unit, v, 127real);
    }
    let d = 2real * (y - n);
    assert(-1real <= d <= 1real);
    assert(-unit <= d * unit <= unit) by (nonlinear_arith)
        requires
            -1real <= d <= 1real,
            unit >= 0real,
    ;
    dft::lemma_dist(y, n, unit);
    dft::lemma_assoc(2real, y - n, unit);
}

/// `phi` reads the whole part of numbers below a thousand.
pub open spec fn whole_parts<S: Sample>(phi: spec_fn(S) -> real) -> bool {
    forall|a: S|
        0real <= phi(a) < 1000real ==> {
            let k = (#[trigger] a.floor_of()).whole() as int;
            phi(a.floor_of()) == k as real && k as real <= phi(a) < (k + 1) as real
        }
}

/// The hyperbolic tangent of the smaller network. From 8 on it is one, down from
/// -8 minus one. In between it is that of the nearest multiple of 0.04 in the
/// table, corrected for the distance to it; negative numbers mirror positive
/// ones.
pub proof fn lemma_tansig<S: Sample>(phi: spec_fn(S) -> real, x: S)
    requires
        dft::exact(phi),
        exact::counts(phi),
        exact::compares(phi),
        perfect::fractions(phi),
        whole_parts(phi),
    ensures
        phi(x) >= 8real ==> phi(legacy_net::tansig_of(x)) == 1real,
        phi(x) <= -8real ==> phi(legacy_net::tansig_of(x)) == -1real,
        0real <= phi(x) < 8real ==> near_entry(phi(x), phi(legacy_net::tansig_of(x))),
        -8real < phi(x) < 0real ==> near_entry(-phi(x), -phi(legacy_net::tansig_of(x))),
{
    perfect::lemma_zero_one(phi);
    lemma_integer::<S>(phi, -8);
    assert(phi(S::num(8)) == 8real);
    assert(phi(S::num(-1)) == -1real);
    if 0real <= phi(x) < 8real {
        lemma_near_entry(phi, x);
        let t = phi(legacy_net::tansig_near(x));
        dft::lemma_units(t);
    } else if -8real < phi(x) < 0real {
        lemma_near_entry(phi, -x);
        let t = phi(legacy_net::tansig_near(-x));
        dft::lemma_units(t);
        assert(phi(S::num(-1) * legacy_net::tansig_near(-x)) == (0real - 1real) * t);
        dft::lemma_comm(0real - 1real, t);
    }
}

/// `t` is the entry of the table that is nearest to `v`, corrected.
pub open spec fn near_entry(v: real, t: real) -> bool {
    exists|k: int|
        {
            let y = (#[trigger] legacy_net::TANSIG_TABLE@[k] as int) as real / 1000000real;
            let d = v - k as real / 25real;
            &&& 0 <= k <= 200
            &&& k as real <= 1real / 2real + 25real * v < (k + 1) as real
            &&& t == y + d * (1real - y * y) * (1real - y * d)
        }
}

proof fn lemma_near_entry<S: Sample>(phi: spec_fn(S) -> real, x: S)
    requires
        dft::exact(phi),
        exact::counts(phi),
        perfect::fractions(phi),
        whole_parts(phi),
        0real <= phi(x) < 8real,
    ensures
        near_entry(phi(x), phi(legacy_net::tansig_near(x))),
{
    perfect::lemma_zero_one(phi);
    let v = phi(x);
    let h = S::frac(1, 2);
    assert(phi(h) == 1real / 2real);
    assert(phi(S::num(25)) == 25real);
    let a = h + S::num(25) * x;
    assert(phi(a) == 1real / 2real + 25real * v);
    let i = a.floor_of();
    let k = i.whole() as int;
    assert(phi(i) == k as real);
    assert(0 <= k <= 200) by {
        if k > 200 {
            assert(k as real >= 201real);
        }
    }
    perfect::lemma_frac::<S>(phi, 4, 100);
    let d = x - S::frac(4, 100) * i;
    assert(phi(S::frac(4, 100)) == 1real / 25real);
    assert(phi(d) == v - k as real / 25real);
    let entry = legacy_net::tansig_entry::<S>(k);
    perfect::lemma_frac::<S>(phi, legacy_net::TANSIG_TABLE@[k], 1000000);
    let y = (legacy_net::TANSIG_TABLE@[k] as int) as real / 1000000real;
    assert(phi(entry) == y);
    let t = legacy_net::tansig_near(x);
    assert(t == entry + d * (S::unit() - entry * entry) * (S::unit() - entry * d));
    assert(phi(t) == y + phi(d) * (1real - y * y) * (1real - y * phi(d)));
}

} // verus!
