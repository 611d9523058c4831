//! The layers of the network: affine transforms, convolutions and gated
//! recurrent units.

use vstd::prelude::*;
use crate::arith::{filled, Arith, Sample, SampleArith};
use crate::layer::{LayerView, LinearLayer, Weights, WeightsView};
use crate::sparse::{sparse_blocks, Block, SPARSE_BLOCK_SIZE, SPARSE_ROWS};
use crate::sparse;

verus! {

/// What is applied to the outputs of a layer.
#[derive(Clone, Copy, Debug, PartialEq, Eq)]
pub enum Activation {
    Tanh,
    Sigmoid,
    Linear,
}

/// The hyperbolic tangent, as a quotient of polynomials that is kept between
/// -1 and 1.
pub open spec fn tanh_of<S: Sample>(x: S) -> S {
    let x2 = x * x;
    let num = (S::frac(60863042, 100000000) * x2 + S::frac(9639235687, 100000000)) * x2 + S::frac(
        95252801514,
        100000000,
    );
    let den = (S::frac(1188600922, 100000000) * x2 + S::frac(41336801147, 100000000)) * x2
        + S::frac(95272399902, 100000000);
    (num * x / den).min_of(S::unit()).max_of(S::num(-1))
}

/// The logistic function, by way of the hyperbolic tangent.
pub open spec fn sigmoid_of<S: Sample>(x: S) -> S {
    let half = S::frac(1, 2);
    half + half * tanh_of(half * x)
}

/// An activation of one number.
pub open spec fn activated<S: Sample>(x: S, act: Activation) -> S {
    match act {
        Activation::Tanh => tanh_of(x),
        Activation::Sigmoid => sigmoid_of(x),
        Activation::Linear => x,
    }
}

/// Approximate the hyperbolic tangent.
pub fn tanh_approx<S: Sample>(x: S) -> (y: S)
    ensures
        S::functional() ==> y == tanh_of(x),
{
    let x2 = x.times(x);
    let num = S::ratio(60863042, 100000000).times(x2).plus(
        S::ratio(9639235687, 100000000),
    ).times(x2).plus(S::ratio(95252801514, 100000000));
    let den = S::ratio(1188600922, 100000000).times(x2).plus(
        S::ratio(41336801147, 100000000),
    ).times(x2).plus(S::ratio(95272399902, 100000000));
    num.times(x).over(den).smaller(S::ratio(1, 1)).larger(S::ratio(-1, 1))
}

/// Approximate the logistic function.
pub fn sigmoid_approx<S: Sample>(x: S) -> (y: S)
    ensures
        S::functional() ==> y == sigmoid_of(x),
{
    let half = S::ratio(1, 2);
    half.plus(half.times(tanh_approx(half.times(x))))
}

/// Apply an activation to every element.
pub fn compute_activation<S: Sample>(out: &mut [S], act: Activation)
    ensures
        final(out)@.len() == old(out)@.len(),
        act is Linear ==> final(out)@ == old(out)@,
        S::functional() ==> final(out)@ == old(out)@.map_values(|x: S| activated(x, act)),
{
    let ghost x = out@;
    let mut i: usize = 0;
    while i < out.len()
        invariant
            i <= out@.len(),
            out@.len() == x.len(),
            act is Linear ==> out@ == x,
            forall|k: int| i <= k < x.len() ==> #[trigger] out@[k] == x[k],
            S::functional() ==> forall|k: int|
                0 <= k < i ==> #[trigger] out@[k] == activated(x[k], act),
        decreases out@.len() - i,
    {
        let y = match act {
            Activation::Tanh => tanh_approx(out[i]),
            Activation::Sigmoid => sigmoid_approx(out[i]),
            Activation::Linear => out[i],
        };
        out[i] = y;
        i += 1;
    }
    assert(act is Linear ==> out@ == x);
    assert(S::functional() ==> out@ == x.map_values(|x: S| activated(x, act)));
}

/// Weight `k` as a number, without its scale.
pub open spec fn weight<S: Sample>(w: WeightsView, k: int) -> S {
    match w {
        WeightsView::Float(w) => S::decoded(w[k]),
        WeightsView::Q8 { w, scale } => S::num(w[k] as int),
    }
}

/// The first `m` terms of output `i` of a dense layer with `n` outputs: the
/// weights are stored input by input.
pub open spec fn dense_sum<S: Sample>(w: WeightsView, n: int, x: Seq<S>, i: int, m: nat) -> S
    decreases m,
{
    if m == 0 {
        S::nil()
    } else {
        dense_sum(w, n, x, i, (m - 1) as nat) + weight::<S>(w, (m - 1) * n + i) * x[m - 1]
    }
}

/// What a block adds to row `i`: the four products of the row, summed first.
pub open spec fn block_term<S: Sample>(w: WeightsView, b: Block, x: Seq<S>, i: int) -> S {
    let k = b.weight + (i - b.row);
    let c = b.col as int;
    weight::<S>(w, k) * x[c] + weight::<S>(w, k + 8) * x[c + 1] + weight::<S>(w, k + 16) * x[c + 2]
        + weight::<S>(w, k + 24) * x[c + 3]
}

/// Whether a block lies on row `i`.
pub open spec fn covers(b: Block, i: int) -> bool {
    b.row <= i < b.row + SPARSE_ROWS
}

/// Row `i` of a sparse layer after its first `count` blocks.
pub open spec fn sparse_sum<S: Sample>(
    w: WeightsView,
    blocks: Seq<Block>,
    x: Seq<S>,
    i: int,
    count: nat,
) -> S
    decreases count,
{
    if count == 0 {
        S::nil()
    } else {
        let before = sparse_sum(w, blocks, x, i, (count - 1) as nat);
        if covers(blocks[count - 1], i) {
            before + block_term(w, blocks[count - 1], x, i)
        } else {
            before
        }
    }
}

/// Output `i` of a layer before bias and diagonal.
pub open spec fn product_row<S: Sample>(layer: LayerView, x: Seq<S>, i: int) -> S {
    let sum = match layer.weights_idx {
        None => dense_sum(layer.weights, layer.nb_outputs as int, x, i, layer.nb_inputs),
        Some(idx) => sparse_sum(
            layer.weights,
            sparse::blocks_of(idx),
            x,
            i,
            sparse::blocks_of(idx).len(),
        ),
    };
    match layer.weights {
        WeightsView::Float(w) => sum,
        WeightsView::Q8 { w, scale } => sum * S::decoded(scale[i]),
    }
}

/// Output `i` of a layer.
pub open spec fn affine_row<S: Sample>(layer: LayerView, x: Seq<S>, i: int) -> S {
    let y = product_row(layer, x, i) + S::decoded(layer.bias[i]);
    match layer.diag {
        None => y,
        Some(d) => y + S::decoded(d[i]) * x[i % (layer.nb_inputs as int)],
    }
}

/// The outputs of a layer: `W * x + bias`, plus the diagonal times `x` for each
/// third of the outputs of a recurrent layer.
pub open spec fn affine<S: Sample>(layer: LayerView, x: Seq<S>) -> Seq<S> {
    Seq::new(layer.nb_outputs, |i: int| affine_row(layer, x, i))
}

/// A layer whose outputs can be computed: well formed, with blocks inside the
/// input, and three outputs per input where it has a diagonal.
pub open spec fn computable(layer: LayerView) -> bool {
    &&& layer.wf()
    &&& layer.columns_ok()
    &&& layer.diag is Some ==> layer.nb_outputs == 3 * layer.nb_inputs
}

impl Weights {
    /// Weight `k` as a number, without its scale.
    fn value<S: Sample>(&self, k: usize) -> (x: S)
        requires
            match self@ {
                WeightsView::Float(w) => k < w.len(),
                WeightsView::Q8 { w, scale } => k < w.len(),
            },
        ensures
            S::functional() ==> x == weight::<S>(self@, k as int),
    {
        match self {
            Weights::Float(w) => S::from_bits(w[k]),
            Weights::Q8 { w, scale } => S::ratio(w[k] as i64, 1),
        }
    }
}

/// The product of a dense layer's weights with `x`, without the scale.
fn dense_gemv<S: Sample>(layer: &LinearLayer, x: &[S]) -> (out: Vec<S>)
    requires
        layer@.wf(),
        layer@.weights_idx is None,
        layer@.nb_inputs <= x@.len(),
    ensures
        out@.len() == layer@.nb_outputs,
        S::functional() ==> forall|i: int|
            0 <= i < out@.len() ==> #[trigger] out@[i] == dense_sum(
                layer@.weights,
                layer@.nb_outputs as int,
                x@,
                i,
                layer@.nb_inputs,
            ),
{
    let n: usize = layer.nb_outputs;
    let m: usize = layer.nb_inputs;
    let mut out = filled(S::ratio(0, 1), n);
    proof {
        layer.lemma_weight_count();
    }
    let mut j: usize = 0;
    while j < m
        invariant
            layer@.wf(),
            layer@.weights_idx is None,
            layer@.weight_count() <= usize::MAX,
            n == layer@.nb_outputs,
            m == layer@.nb_inputs,
            m <= x@.len(),
            j <= m,
            out@.len() == n,
            S::functional() ==> forall|i: int|
                0 <= i < n ==> #[trigger] out@[i] == dense_sum(
                    layer@.weights,
                    n as int,
                    x@,
                    i,
                    j as nat,
                ),
        decreases m - j,
    {
        let ghost before = out@;
        let mut i: usize = 0;
        while i < n
            invariant
                layer@.wf(),
                layer@.weights_idx is None,
                layer@.weight_count() <= usize::MAX,
                n == layer@.nb_outputs,
                m == layer@.nb_inputs,
                m <= x@.len(),
                j < m,
                i <= n,
                out@.len() == n,
                before.len() == n,
                forall|k: int| i <= k < n ==> #[trigger] out@[k] == before[k],
                S::functional() ==> forall|k: int|
                    0 <= k < n ==> #[trigger] before[k] == dense_sum(
                        layer@.weights,
                        n as int,
                        x@,
                        k,
                        j as nat,
                    ),
                S::functional() ==> forall|k: int|
                    0 <= k < i ==> #[trigger] out@[k] == dense_sum(
                        layer@.weights,
                        n as int,
                        x@,
                        k,
                        (j + 1) as nat,
                    ),
            decreases n - i,
        {
            assert(j * n + i < m * n && j * n <= m * n) by (nonlinear_arith)
                requires
                    j < m,
                    i < n,
            ;
            let w = layer.weights.value::<S>(j * n + i);
            let o = out[i].plus(w.times(x[j]));
            out.set(i, o);
            i += 1;
        }
        j += 1;
    }
    out
}

/// The product of a sparse layer's weights with `x`, without the scale.
fn sparse_gemv8x4<S: Sample>(layer: &LinearLayer, idx: &Vec<i32>, x: &[S]) -> (out: Vec<S>)
    requires
        layer@.wf(),
        layer@.columns_ok(),
        layer@.weights_idx == Some(idx@),
        layer@.nb_inputs <= x@.len(),
    ensures
        out@.len() == layer@.nb_outputs,
        S::functional() ==> forall|i: int|
            0 <= i < out@.len() ==> #[trigger] out@[i] == sparse_sum(
                layer@.weights,
                sparse::blocks_of(idx@),
                x@,
                i,
                sparse::blocks_of(idx@).len(),
            ),
{
    let n: usize = layer.nb_outputs;
    let mut out = filled(S::ratio(0, 1), n);
    proof {
        layer.lemma_weight_count();
        sparse::lemma_block_list(idx@, 0, 0, n as int, 0);
    }
    let blocks = sparse_blocks(idx, n);
    let mut k: usize = 0;
    while k < blocks.len()
        invariant
            layer@.wf(),
            layer@.columns_ok(),
            layer@.weights_idx == Some(idx@),
            layer@.nb_inputs <= x@.len(),
            layer@.weight_count() <= usize::MAX,
            n == layer@.nb_outputs,
            blocks@ == sparse::blocks_of(idx@),
            layer@.weight_count() == SPARSE_BLOCK_SIZE * blocks@.len(),
            forall|k: int|
                0 <= k < blocks@.len() ==> {
                    let b = #[trigger] blocks@[k];
                    &&& b.row + SPARSE_ROWS <= n
                    &&& b.weight == SPARSE_BLOCK_SIZE * k
                },
            k <= blocks@.len(),
            out@.len() == n,
            S::functional() ==> forall|i: int|
                0 <= i < n ==> #[trigger] out@[i] == sparse_sum(
                    layer@.weights,
                    blocks@,
                    x@,
                    i,
                    k as nat,
                ),
        decreases blocks@.len() - k,
    {
        let ghost before = out@;
        let b = blocks[k];
        assert(sparse::in_columns(sparse::blocks_of(idx@)[k as int], layer@.nb_inputs as int));
        let c: usize = b.col as usize;
        let x0 = x[c];
        let x1 = x[c + 1];
        let x2 = x[c + 2];
        let x3 = x[c + 3];
        let mut r: usize = 0;
        while r < SPARSE_ROWS
            invariant
                r <= SPARSE_ROWS,
                n == out@.len(),
                before.len() == n,
                b == blocks@[k as int],
                k < blocks@.len(),
                b.row + SPARSE_ROWS <= n,
                b.weight == SPARSE_BLOCK_SIZE * k,
                layer@.weight_count() == SPARSE_BLOCK_SIZE * blocks@.len(),
                layer@.weight_count() <= usize::MAX,
                c == b.col,
                c + 4 <= x@.len(),
                x0 == x@[c as int],
                x1 == x@[c + 1],
                x2 == x@[c + 2],
                x3 == x@[c + 3],
                forall|i: int|
                    0 <= i < n && !(b.row <= i < b.row + r) ==> #[trigger] out@[i] == before[i],
                S::functional() ==> forall|i: int|
                    b.row <= i < b.row + r ==> #[trigger] out@[i] == before[i] + block_term(
                        layer@.weights,
                        b,
                        x@,
                        i,
                    ),
            decreases SPARSE_ROWS - r,
        {
            let at: usize = b.weight + r;
            let t = layer.weights.value::<S>(at).times(x0).plus(
                layer.weights.value::<S>(at + 8).times(x1),
            ).plus(layer.weights.value::<S>(at + 16).times(x2)).plus(
                layer.weights.value::<S>(at + 24).times(x3),
            );
            let i: usize = b.row + r;
            let o = out[i].plus(t);
            out.set(i, o);
            r += 1;
        }
        assert forall|i: int| 0 <= i < n && S::functional() implies #[trigger] out@[i]
            == sparse_sum(layer@.weights, blocks@, x@, i, (k + 1) as nat) by {
            assert(before[i] == sparse_sum(layer@.weights, blocks@, x@, i, k as nat));
        }
        k += 1;
    }
    out
}

impl LinearLayer {
    /// The outputs of the layer for the input `x`.
    pub fn compute<S: Sample>(&self, x: &[S]) -> (out: Vec<S>)
        requires
            computable(self@),
            self@.nb_inputs <= x@.len(),
        ensures
            out@.len() == self@.nb_outputs,
            S::functional() ==> out@ == affine(self@, x@),
    {
        let n: usize = self.nb_outputs;
        let m: usize = self.nb_inputs;
        let mut out = match &self.weights_idx {
            None => dense_gemv(self, x),
            Some(idx) => sparse_gemv8x4(self, idx, x),
        };
        let ghost sums = out@;
        match &self.weights {
            Weights::Float(w) => {},
            Weights::Q8 { w, scale } => {
                let mut i: usize = 0;
                while i < n
                    invariant
                        i <= n,
                        n == out@.len(),
                        n == scale@.len(),
                        sums.len() == n,
                        forall|k: int| i <= k < n ==> #[trigger] out@[k] == sums[k],
                        S::functional() ==> forall|k: int|
                            0 <= k < i ==> #[trigger] out@[k] == sums[k] * S::decoded(scale@[k]),
                    decreases n - i,
                {
                    let o = out[i].times(S::from_bits(scale[i]));
                    out.set(i, o);
                    i += 1;
                }
            },
        }
        assert(S::functional() ==> forall|i: int|
            0 <= i < n ==> #[trigger] out@[i] == product_row(self@, x@, i)) by {
            assert(forall|i: int| 0 <= i < n ==> sums[i] == sums[i]);
        }
        let ghost products = out@;
        let mut i: usize = 0;
        while i < n
            invariant
                i <= n,
                n == out@.len(),
                n == self.nb_outputs,
                n == self@.bias.len(),
                products.len() == n,
                forall|k: int| i <= k < n ==> #[trigger] out@[k] == products[k],
                S::functional() ==> forall|k: int|
                    0 <= k < i ==> #[trigger] out@[k] == products[k] + S::decoded(
                        self@.bias[k],
                    ),
            decreases n - i,
        {
            let o = out[i].plus(S::from_bits(self.bias[i]));
            out.set(i, o);
            i += 1;
        }
        match &self.diag {
            None => {
                assert(S::functional() ==> out@ == affine(self@, x@)) by {
                    assert(forall|i: int| 0 <= i < n ==> products[i] == products[i]);
                }
            },
            Some(diag) => {
                let ghost biased = out@;
                let mut i: usize = 0;
                while i < n
                    invariant
                        i <= n,
                        n == out@.len(),
                        n == diag@.len(),
                        n == 3 * m,
                        m <= x@.len(),
                        biased.len() == n,
                        forall|k: int| i <= k < n ==> #[trigger] out@[k] == biased[k],
                        S::functional() ==> forall|k: int|
                            0 <= k < i ==> #[trigger] out@[k] == biased[k] + S::decoded(diag@[k])
                                * x@[k % (m as int)],
                    decreases n - i,
                {
                    let o = out[i].plus(S::from_bits(diag[i]).times(x[i % m]));
                    out.set(i, o);
                    i += 1;
                }
                assert(S::functional() ==> out@ == affine(self@, x@)) by {
                    assert(forall|i: int| 0 <= i < n ==> products[i] == products[i]);
                    assert(forall|i: int| 0 <= i < n ==> biased[i] == biased[i]);
                }
            },
        }
        out
    }
}

/// The outputs of a layer with an activation.
pub open spec fn dense<S: Sample>(layer: LayerView, x: Seq<S>, act: Activation) -> Seq<S> {
    affine(layer, x).map_values(|y: S| activated(y, act))
}

/// Compute a layer with an activation.
pub fn compute_dense<S: Sample>(layer: &LinearLayer, x: &[S], act: Activation) -> (out: Vec<S>)
    requires
        computable(layer@),
        layer@.nb_inputs <= x@.len(),
    ensures
        out@.len() == layer@.nb_outputs,
        S::functional() ==> out@ == dense(layer@, x@, act),
{
    let mut out = layer.compute(x);
    compute_activation(out.as_mut_slice(), act);
    out
}

/// The input of a convolution: what it remembers, then the new samples.
pub open spec fn conv_input<S>(mem: Seq<S>, x: Seq<S>, size: int, hist: int) -> Seq<S> {
    mem.take(hist) + x.take(size)
}

/// What a convolution remembers after `size` new samples.
pub open spec fn conv_memory<S>(mem: Seq<S>, x: Seq<S>, size: int, hist: int) -> Seq<S> {
    conv_input(mem, x, size, hist).skip(size) + mem.skip(hist)
}

/// Compute a convolution over time: the layer's inputs are what `mem` holds,
/// followed by `size` new samples, which `mem` then remembers.
pub fn compute_conv1d<S: Sample>(
    layer: &LinearLayer,
    mem: &mut Vec<S>,
    x: &[S],
    size: usize,
    act: Activation,
) -> (out: Vec<S>)
    requires
        computable(layer@),
        size <= x@.len(),
        size <= layer@.nb_inputs <= size + old(mem)@.len(),
    ensures
        ({
            let hist = layer@.nb_inputs - size;
            &&& out@.len() == layer@.nb_outputs
            &&& final(mem)@ == conv_memory(old(mem)@, x@, size as int, hist)
            &&& final(mem)@.len() == old(mem)@.len()
            &&& S::functional() ==> out@ == dense(
                layer@,
                conv_input(old(mem)@, x@, size as int, hist),
                act,
            )
        }),
{
    let hist: usize = layer.nb_inputs - size;
    let ghost mem0 = mem@;
    let ghost goal = conv_input(mem0, x@, size as int, hist as int);
    let mut tmp: Vec<S> = Vec::new();
    let mut i: usize = 0;
    while i < hist
        invariant
            i <= hist,
            hist <= mem@.len(),
            mem@ == mem0,
            tmp@ == mem0.take(i as int),
        decreases hist - i,
    {
        tmp.push(mem[i]);
        i += 1;
        assert(tmp@ == mem0.take(i as int));
    }
    let mut i: usize = 0;
    assert(tmp@ == mem0.take(hist as int) + x@.take(0));
    while i < size
        invariant
            i <= size,
            size <= x@.len(),
            tmp@ == mem0.take(hist as int) + x@.take(i as int),
        decreases size - i,
    {
        tmp.push(x[i]);
        i += 1;
        assert(tmp@ == mem0.take(hist as int) + x@.take(i as int));
    }
    let mut out = layer.compute(&tmp);
    compute_activation(out.as_mut_slice(), act);
    let mut i: usize = 0;
    while i < hist
        invariant
            i <= hist,
            hist <= mem0.len(),
            mem@.len() == mem0.len(),
            tmp@ == goal,
            tmp@.len() == hist + size,
            forall|k: int| i <= k < mem0.len() ==> #[trigger] mem@[k] == mem0[k],
            forall|k: int| 0 <= k < i ==> #[trigger] mem@[k] == goal[k + size],
        decreases hist - i,
    {
        assert(tmp@.len() == tmp.len());
        mem.set(i, tmp[i + size]);
        i += 1;
    }
    assert(mem@ == conv_memory(mem0, x@, size as int, hist as int));
    out
}

/// The gates and the candidate of a recurrent unit with `n` outputs, from the
/// outputs of its input layer and its recurrent layer.
pub open spec fn update_gate<S: Sample>(zi: Seq<S>, rc: Seq<S>, i: int) -> S {
    sigmoid_of(zi[i] + rc[i])
}

pub open spec fn reset_gate<S: Sample>(zi: Seq<S>, rc: Seq<S>, n: int, i: int) -> S {
    sigmoid_of(zi[n + i] + rc[n + i])
}

pub open spec fn candidate<S: Sample>(zi: Seq<S>, rc: Seq<S>, n: int, i: int) -> S {
    tanh_of(zi[2 * n + i] + rc[2 * n + i] * reset_gate(zi, rc, n, i))
}

/// The state of a recurrent unit after one step: between the old state and the
/// candidate, as the update gate says.
pub open spec fn gru<S: Sample>(
    input_w: LayerView,
    recurrent_w: LayerView,
    state: Seq<S>,
    x: Seq<S>,
) -> Seq<S> {
    let n = recurrent_w.nb_inputs as int;
    let zi = affine(input_w, x);
    let rc = affine(recurrent_w, state);
    Seq::new(
        state.len(),
        |i: int|
            if i < n {
                let z = update_gate(zi, rc, i);
                z * state[i] + (S::unit() - z) * candidate(zi, rc, n, i)
            } else {
                state[i]
            },
    )
}

/// One step of a gated recurrent unit.
pub fn compute_gru<S: Sample>(
    input_w: &LinearLayer,
    recurrent_w: &LinearLayer,
    state: &mut Vec<S>,
    x: &[S],
)
    requires
        computable(input_w@),
        computable(recurrent_w@),
        recurrent_w@.nb_outputs == 3 * recurrent_w@.nb_inputs,
        input_w@.nb_outputs == recurrent_w@.nb_outputs,
        input_w@.nb_inputs <= x@.len(),
        recurrent_w@.nb_inputs <= old(state)@.len(),
    ensures
        final(state)@.len() == old(state)@.len(),
        S::functional() ==> final(state)@ == gru(input_w@, recurrent_w@, old(state)@, x@),
{
    let n: usize = recurrent_w.nb_inputs;
    let ghost st = state@;
    let zi = input_w.compute(x);
    let rc = recurrent_w.compute(state);
    let one = S::ratio(1, 1);
    let mut i: usize = 0;
    while i < n
        invariant
            i <= n,
            n == recurrent_w@.nb_inputs,
            zi@.len() == 3 * n,
            rc@.len() == 3 * n,
            zi@.len() <= usize::MAX,
            n <= st.len(),
            state@.len() == st.len(),
            forall|k: int| i <= k < st.len() ==> #[trigger] state@[k] == st[k],
            S::functional() ==> {
                &&& one == S::unit()
                &&& zi@ == affine(input_w@, x@)
                &&& rc@ == affine(recurrent_w@, st)
                &&& forall|k: int|
                    0 <= k < i ==> #[trigger] state@[k] == gru(
                        input_w@,
                        recurrent_w@,
                        st,
                        x@,
                    )[k]
            },
        decreases n - i,
    {
        assert(zi@.len() == zi.len());
        let z = sigmoid_approx(zi[i].plus(rc[i]));
        let r = sigmoid_approx(zi[n + i].plus(rc[n + i]));
        let h = tanh_approx(zi[2 * n + i].plus(rc[2 * n + i].times(r)));
        let s = z.times(state[i]).plus(one.minus(z).times(h));
        state.set(i, s);
        i += 1;
    }
    assert(S::functional() ==> state@ == gru(input_w@, recurrent_w@, st, x@));
}

} // verus!
