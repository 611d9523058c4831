//! Weights as 8-bit integers, with a scale for every output.

use vstd::prelude::*;
use vstd::arithmetic::div_mod::*;
use crate::arith::{filled, Arith, Sample, SampleArith};
use crate::layer::{LayerView, LinearLayer, Weights, WeightsView};
use crate::model::RnnModel;
use crate::model;
use crate::nnet;
use crate::sparse::{sparse_blocks, Block, SPARSE_BLOCK_SIZE, SPARSE_COLS, SPARSE_ROWS};
use crate::sparse;

verus! {

/// The largest magnitude among the first `m` weights of output `i` of a dense
/// layer with `n` outputs.
pub open spec fn dense_peak<S: Sample>(w: Seq<u32>, n: int, i: int, m: nat) -> S
    decreases m,
{
    if m == 0 {
        S::nil()
    } else {
        dense_peak::<S>(w, n, i, (m - 1) as nat).max_of(
            S::decoded(w[(m - 1) * n + i]).abs_of(),
        )
    }
}

/// `peak`, or the largest magnitude among the first `c` columns of row `i` of a
/// block where that is larger.
pub open spec fn block_peak<S: Sample>(peak: S, w: Seq<u32>, b: Block, i: int, c: nat) -> S
    decreases c,
{
    if c == 0 {
        peak
    } else {
        let before = block_peak(peak, w, b, i, (c - 1) as nat);
        let a = S::decoded(w[b.weight + SPARSE_ROWS * (c - 1) + (i - b.row)]).abs_of();
        if before.lt_of(a) {
            a
        } else {
            before
        }
    }
}

/// The largest magnitude in row `i` of the first `count` blocks.
pub open spec fn sparse_peak<S: Sample>(
    w: Seq<u32>,
    blocks: Seq<Block>,
    i: int,
    count: nat,
) -> S
    decreases count,
{
    if count == 0 {
        S::nil()
    } else {
        let before = sparse_peak::<S>(w, blocks, i, (count - 1) as nat);
        let b = blocks[count - 1];
        if nnet::covers(b, i) {
            block_peak(before, w, b, i, SPARSE_COLS as nat)
        } else {
            before
        }
    }
}

/// The largest magnitude among the weights of output `i`.
pub open spec fn peak<S: Sample>(layer: LayerView, w: Seq<u32>, i: int) -> S {
    match layer.weights_idx {
        None => dense_peak::<S>(w, layer.nb_outputs as int, i, layer.nb_inputs),
        Some(idx) => sparse_peak::<S>(
            w,
            sparse::blocks_of(idx),
            i,
            sparse::blocks_of(idx).len(),
        ),
    }
}

/// The scale of output `i`: its largest weight becomes 127.
pub open spec fn scale_of<S: Sample>(layer: LayerView, w: Seq<u32>, i: int) -> S {
    peak::<S>(layer, w, i) / S::num(127)
}

/// The output that weight `k` belongs to.
pub open spec fn output_of(layer: LayerView, k: int) -> int {
    match layer.weights_idx {
        None => k % (layer.nb_outputs as int),
        Some(idx) => sparse::blocks_of(idx)[k / 32].row + k % 8,
    }
}

/// A number to the nearest integer between -127 and 127.
pub open spec fn quantum<S: Sample>(x: S) -> i8 {
    if x.nearest() < -127 {
        -127i8
    } else if x.nearest() > 127 {
        127i8
    } else {
        x.nearest() as i8
    }
}

/// A weight in units of the scale; zero where the scale is not positive.
pub open spec fn in_units<S: Sample>(w: S, scale: S) -> i8 {
    if S::nil().lt_of(scale) {
        quantum(w / scale)
    } else {
        0i8
    }
}

/// A layer with 8-bit weights in place of full-precision ones.
pub open spec fn quantised<S: Sample>(layer: LayerView) -> LayerView {
    match layer.weights {
        WeightsView::Q8 { w, scale } => layer,
        WeightsView::Float(w) => LayerView {
            weights: WeightsView::Q8 {
                w: Seq::new(
                    w.len(),
                    |k: int|
                        in_units::<S>(
                            S::decoded(w[k]),
                            scale_of::<S>(layer, w, output_of(layer, k)),
                        ),
                ),
                scale: Seq::new(
                    layer.nb_outputs,
                    |i: int| scale_of::<S>(layer, w, i).encoded(),
                ),
            },
            ..layer
        },
    }
}

/// The 8-bit weights of a layer stay between -127 and 127.
pub open spec fn bounded(layer: LayerView) -> bool {
    layer.weights matches WeightsView::Q8 { w, scale } ==> forall|k: int|
        0 <= k < w.len() ==> -127 <= #[trigger] w[k] <= 127
}

/// Round to the nearest integer between -127 and 127.
pub fn quant<S: Sample>(x: S) -> (q: i8)
    ensures
        -127 <= q <= 127,
        S::functional() ==> q == quantum(x),
{
    let n = x.rounded();
    if n < -127 {
        -127
    } else if n > 127 {
        127
    } else {
        n as i8
    }
}

fn weight_in_units<S: Sample>(w: S, scale: S) -> (q: i8)
    ensures
        -127 <= q <= 127,
        S::functional() ==> q == in_units(w, scale),
{
    if S::ratio(0, 1).below(scale) {
        quant(w.over(scale))
    } else {
        0
    }
}

/// The largest magnitudes of the outputs of a dense layer.
fn dense_peaks<S: Sample>(w: &Vec<u32>, n: usize, m: usize) -> (peaks: Vec<S>)
    requires
        w@.len() == m * n,
    ensures
        peaks@.len() == n,
        S::functional() ==> forall|i: int|
            0 <= i < n ==> #[trigger] peaks@[i] == dense_peak::<S>(w@, n as int, i, m as nat),
{
    let mut peaks: Vec<S> = Vec::new();
    let mut i: usize = 0;
    while i < n
        invariant
            w@.len() == m * n,
            i <= n,
            peaks@.len() == i,
            S::functional() ==> forall|k: int|
                0 <= k < i ==> #[trigger] peaks@[k] == dense_peak::<S>(w@, n as int, k, m as nat),
        decreases n - i,
    {
        let mut mx = S::ratio(0, 1);
        let mut j: usize = 0;
        while j < m
            invariant
                w@.len() == m * n,
                i < n,
                j <= m,
                S::functional() ==> mx == dense_peak::<S>(w@, n as int, i as int, j as nat),
            decreases m - j,
        {
            assert(j * n + i < m * n && j * n <= m * n) by (nonlinear_arith)
                requires
                    j < m,
                    i < n,
            ;
            assert(w@.len() == w.len());
            mx = mx.larger(S::from_bits(w[j * n + i]).magnitude());
            j += 1;
        }
        peaks.push(mx);
        i += 1;
    }
    peaks
}

/// The largest magnitudes of the outputs of a sparse layer.
fn sparse_peaks<S: Sample>(w: &Vec<u32>, blocks: &Vec<Block>, n: usize) -> (peaks: Vec<S>)
    requires
        w@.len() == SPARSE_BLOCK_SIZE * blocks@.len(),
        forall|k: int|
            0 <= k < blocks@.len() ==> {
                let b = #[trigger] blocks@[k];
                &&& b.row + SPARSE_ROWS <= n
                &&& b.weight == SPARSE_BLOCK_SIZE * k
            },
    ensures
        peaks@.len() == n,
        S::functional() ==> forall|i: int|
            0 <= i < n ==> #[trigger] peaks@[i] == sparse_peak::<S>(
                w@,
                blocks@,
                i,
                blocks@.len(),
            ),
{
    let mut peaks = filled(S::ratio(0, 1), n);
    let mut k: usize = 0;
    while k < blocks.len()
        invariant
            w@.len() == SPARSE_BLOCK_SIZE * blocks@.len(),
            forall|k: int|
                0 <= k < blocks@.len() ==> {
                    let b = #[trigger] blocks@[k];
                    &&& b.row + SPARSE_ROWS <= n
                    &&& b.weight == SPARSE_BLOCK_SIZE * k
                },
            k <= blocks@.len(),
            peaks@.len() == n,
            S::functional() ==> forall|i: int|
                0 <= i < n ==> #[trigger] peaks@[i] == sparse_peak::<S>(
                    w@,
                    blocks@,
                    i,
                    k as nat,
                ),
        decreases blocks@.len() - k,
    {
        let ghost before = peaks@;
        let b = blocks[k];
        assert(w@.len() == w.len());
        let mut c: usize = 0;
        while c < SPARSE_COLS
            invariant
                w@.len() == SPARSE_BLOCK_SIZE * blocks@.len(),
                w@.len() == w.len(),
                k < blocks@.len(),
                b == blocks@[k as int],
                b.row + SPARSE_ROWS <= n,
                b.weight == SPARSE_BLOCK_SIZE * k,
                c <= SPARSE_COLS,
                peaks@.len() == n,
                before.len() == n,
                forall|i: int|
                    0 <= i < n && !nnet::covers(b, i) ==> #[trigger] peaks@[i] == before[i],
                S::functional() ==> forall|i: int|
                    nnet::covers(b, i) ==> #[trigger] peaks@[i] == block_peak(
                        before[i],
                        w@,
                        b,
                        i,
                        c as nat,
                    ),
            decreases SPARSE_COLS - c,
        {
            let ghost prev = peaks@;
            let mut r: usize = 0;
            while r < SPARSE_ROWS
                invariant
                    w@.len() == SPARSE_BLOCK_SIZE * blocks@.len(),
                    w@.len() == w.len(),
                    k < blocks@.len(),
                    b.row + SPARSE_ROWS <= n,
                    b.weight == SPARSE_BLOCK_SIZE * k,
                    c < SPARSE_COLS,
                    r <= SPARSE_ROWS,
                    peaks@.len() == n,
                    prev.len() == n,
                    forall|i: int|
                        0 <= i < n && !(b.row <= i < b.row + r) ==> #[trigger] peaks@[i]
                            == prev[i],
                    S::functional() ==> forall|i: int|
                        b.row <= i < b.row + r ==> #[trigger] peaks@[i] == {
                            let a = S::decoded(
                                w@[b.weight + SPARSE_ROWS * c + (i - b.row)],
                            ).abs_of();
                            if prev[i].lt_of(a) {
                                a
                            } else {
                                prev[i]
                            }
                        },
                decreases SPARSE_ROWS - r,
            {
                let a = S::from_bits(w[b.weight + SPARSE_ROWS * c + r]).magnitude();
                let i: usize = b.row + r;
                if peaks[i].below(a) {
                    peaks.set(i, a);
                }
                r += 1;
            }
            assert forall|i: int| nnet::covers(b, i) && S::functional() implies #[trigger] peaks@[i]
                == block_peak(before[i], w@, b, i, (c + 1) as nat) by {
                assert(prev[i] == block_peak(before[i], w@, b, i, c as nat));
            }
            c += 1;
        }
        assert forall|i: int| 0 <= i < n && S::functional() implies #[trigger] peaks@[i]
            == sparse_peak::<S>(w@, blocks@, i, (k + 1) as nat) by {
            assert(before[i] == sparse_peak::<S>(w@, blocks@, i, k as nat));
        }
        k += 1;
    }
    peaks
}

impl LinearLayer {
    /// Replace full-precision weights by 8-bit ones; weights that are 8-bit
    /// already stay as they are.
    pub fn quantize<S: Sample>(&mut self)
        requires
            old(self)@.wf(),
        ensures
            final(self)@.wf(),
            final(self)@ == (LayerView { weights: final(self)@.weights, ..old(self)@ }),
            final(self)@.weights is Q8,
            bounded(old(self)@) ==> bounded(final(self)@),
            old(self)@.weights is Q8 ==> final(self)@ == old(self)@,
            S::functional() ==> final(self)@ == quantised::<S>(old(self)@),
    {
        let ghost layer = self@;
        proof {
            self.lemma_weight_count();
        }
        let new_weights = match &self.weights {
            Weights::Q8 { w, scale } => None,
            Weights::Float(w) => {
                let n: usize = self.nb_outputs;
                let m: usize = self.nb_inputs;
                assert(layer.weights == WeightsView::Float(w@));
                let (peaks, blocks) = match &self.weights_idx {
                    None => {
                        assert(m * n == n * m) by (nonlinear_arith);
                        (dense_peaks::<S>(w, n, m), Vec::new())
                    },
                    Some(idx) => {
                        proof {
                            sparse::lemma_block_list(idx@, 0, 0, n as int, 0);
                        }
                        let blocks = sparse_blocks(idx, n);
                        (sparse_peaks::<S>(w, &blocks, n), blocks)
                    },
                };
                let sparse = self.weights_idx.is_some();
                let steps = S::ratio(127, 1);
                let mut scales: Vec<S> = Vec::new();
                let mut bits: Vec<u32> = Vec::new();
                let mut i: usize = 0;
                while i < n
                    invariant
                        i <= n,
                        n == layer.nb_outputs,
                        peaks@.len() == n,
                        scales@.len() == i,
                        bits@.len() == i,
                        S::functional() ==> {
                            &&& steps == S::num(127)
                            &&& forall|k: int|
                                0 <= k < n ==> #[trigger] peaks@[k] == peak::<S>(layer, w@, k)
                            &&& forall|k: int|
                                0 <= k < i ==> #[trigger] scales@[k] == scale_of::<S>(
                                    layer,
                                    w@,
                                    k,
                                )
                            &&& forall|k: int|
                                0 <= k < i ==> #[trigger] bits@[k] == scale_of::<S>(
                                    layer,
                                    w@,
                                    k,
                                ).encoded()
                        },
                    decreases n - i,
                {
                    let s = peaks[i].over(steps);
                    scales.push(s);
                    bits.push(s.to_bits());
                    i += 1;
                }
                let mut q: Vec<i8> = Vec::new();
                let mut k: usize = 0;
                while k < w.len()
                    invariant
                        k <= w@.len(),
                        n == layer.nb_outputs,
                        m == layer.nb_inputs,
                        layer.wf(),
                        layer.weights == WeightsView::Float(w@),
                        sparse == layer.weights_idx is Some,
                        layer.weights_idx matches Some(idx) ==> {
                            &&& blocks@ == sparse::blocks_of(idx)
                            &&& w@.len() == SPARSE_BLOCK_SIZE * blocks@.len()
                            &&& forall|j: int|
                                0 <= j < blocks@.len() ==> (#[trigger] blocks@[j]).row + SPARSE_ROWS
                                    <= n
                        },
                        scales@.len() == n,
                        q@.len() == k,
                        forall|j: int| 0 <= j < k ==> -127 <= #[trigger] q@[j] <= 127,
                        S::functional() ==> {
                            &&& forall|j: int|
                                0 <= j < n ==> #[trigger] scales@[j] == scale_of::<S>(
                                    layer,
                                    w@,
                                    j,
                                )
                            &&& forall|j: int|
                                0 <= j < k ==> #[trigger] q@[j] == in_units::<S>(
                                    S::decoded(w@[j]),
                                    scale_of::<S>(layer, w@, output_of(layer, j)),
                                )
                        },
                    decreases w@.len() - k,
                {
                    let i: usize = if sparse {
                        blocks[k / 32].row + k % 8
                    } else {
                        assert(n > 0) by (nonlinear_arith)
                            requires
                                k < w@.len(),
                                w@.len() == m * n,
                        ;
                        k % n
                    };
                    assert(i == output_of(layer, k as int));
                    q.push(weight_in_units(S::from_bits(w[k]), scales[i]));
                    k += 1;
                }
                proof {
                    if S::functional() {
                        let goal = quantised::<S>(layer);
                        assert(q@ == goal.weights->w);
                        assert(bits@ == goal.weights->scale);
                    }
                }
                Some(Weights::Q8 { w: q, scale: bits })
            },
        };
        match new_weights {
            None => {},
            Some(weights) => {
                self.weights = weights;
            },
        }
    }
}

/// Whether two models have the same layers but for the weights of the second
/// convolution and of the recurrent units.
pub open spec fn same_heads(a: &RnnModel, b: &RnnModel) -> bool {
    &&& a.conv1@ == b.conv1@
    &&& a.dense_out@ == b.dense_out@
    &&& a.vad_dense@ == b.vad_dense@
}

impl RnnModel {
    /// The model with 8-bit weights in the second convolution and the recurrent
    /// units; the first convolution and the output layers stay as they are.
    pub fn quantized<S: Sample>(self) -> (m: RnnModel)
        requires
            self.wf(),
        ensures
            m.wf(),
            self.columns_ok() ==> m.columns_ok(),
            same_heads(&m, &self),
            forall|k: int|
                1 <= k < 8 ==> {
                    let layer = model::layers_of(&self)[k];
                    let q = #[trigger] model::layers_of(&m)[k];
                    &&& q.weights is Q8
                    &&& q == (LayerView { weights: q.weights, ..layer })
                    &&& layer.weights is Q8 ==> q == layer
                    &&& bounded(layer) ==> bounded(q)
                },
            S::functional() ==> forall|k: int|
                1 <= k < 8 ==> #[trigger] model::layers_of(&m)[k] == quantised::<S>(
                    model::layers_of(&self)[k],
                ),
    {
        let ghost l = model::layers_of(&self);
        proof {
            assert(l[0].wf() && l[1].wf() && l[2].wf() && l[3].wf() && l[4].wf() && l[5].wf()
                && l[6].wf() && l[7].wf() && l[8].wf() && l[9].wf());
        }
        let mut m = self;
        m.conv2.quantize::<S>();
        m.gru1_input.quantize::<S>();
        m.gru1_recurrent.quantize::<S>();
        m.gru2_input.quantize::<S>();
        m.gru2_recurrent.quantize::<S>();
        m.gru3_input.quantize::<S>();
        m.gru3_recurrent.quantize::<S>();
        proof {
            let q = model::layers_of(&m);
            assert forall|k: int| 0 <= k < 10 implies {
                &&& (#[trigger] q[k]).wf()
                &&& q[k] == (LayerView { weights: q[k].weights, ..l[k] })
                &&& 1 <= k < 8 ==> {
                    &&& q[k].weights is Q8
                    &&& l[k].weights is Q8 ==> q[k] == l[k]
                    &&& bounded(l[k]) ==> bounded(q[k])
                }
                &&& 1 <= k < 8 && S::functional() ==> q[k] == quantised::<S>(l[k])
            } by {
                assert(l[k].wf());
            }
            assert(self.columns_ok() ==> m.columns_ok()) by {
                if self.columns_ok() {
                    assert forall|k: int| 0 <= k < 10 implies (#[trigger] q[k]).columns_ok() by {
                        assert(l[k].columns_ok());
                    }
                }
            }
            assert(m.wf()) by {
                assert forall|k: int| 0 <= k < 10 implies {
                    let layer = #[trigger] q[k];
                    &&& layer.wf()
                    &&& layer.nb_inputs == model::shapes()[k].nb_inputs
                    &&& layer.nb_outputs == model::shapes()[k].nb_outputs
                    &&& layer.weights_idx is Some <==> model::shapes()[k].idx is Some
                    &&& layer.diag is Some <==> model::shapes()[k].diag is Some
                } by {
                    assert(l[k].wf());
                }
            }
        }
        m
    }
}

/// Quantizing a layer twice is quantizing it once.
pub proof fn lemma_quantised_twice<S: Sample>(layer: LayerView)
    ensures
        quantised::<S>(quantised::<S>(layer)) == quantised::<S>(layer),
{
}

/// `phi` reads numbers as real numbers, and the operations that quantization
/// uses act on them without error, but for rounding to the nearest integer.
pub open spec fn exact_rounding<S: Sample>(phi: spec_fn(S) -> real) -> bool {
    &&& phi(S::nil()) == 0real
    &&& phi(S::num(127)) == 127real
    &&& forall|a: S, b: S| #[trigger] a.lt_of(b) <==> phi(a) < phi(b)
    &&& forall|a: S|
        phi(#[trigger] a.abs_of()) == if phi(a) < 0real {
            -phi(a)
        } else {
            phi(a)
        }
    &&& forall|a: S, b: S|
        phi(#[trigger] a.max_of(b)) == if phi(a) < phi(b) {
            phi(b)
        } else {
            phi(a)
        }
    &&& forall|a: S, b: S| phi(b) != 0real ==> phi(#[trigger] (a / b)) * phi(b) == phi(a)
    &&& forall|a: S|
        -127real <= phi(a) <= 127real ==> {
            let n = (#[trigger] a.nearest()) as int;
            n as real * 2real - 1real <= phi(a) * 2real <= n as real * 2real + 1real
        }
}

/// `x` has at most the magnitude `m`.
pub open spec fn within(x: real, m: real) -> bool {
    -m <= x <= m
}

proof fn lemma_dense_peak<S: Sample>(
    phi: spec_fn(S) -> real,
    w: Seq<u32>,
    n: int,
    i: int,
    m: nat,
    j: int,
)
    requires
        exact_rounding(phi),
    ensures
        phi(dense_peak::<S>(w, n, i, m)) >= 0real,
        0 <= j < m ==> within(phi(S::decoded(w[j * n + i])), phi(dense_peak::<S>(w, n, i, m))),
    decreases m,
{
    if m > 0 {
        lemma_dense_peak(phi, w, n, i, (m - 1) as nat, j);
        let before = dense_peak::<S>(w, n, i, (m - 1) as nat);
        let a = S::decoded(w[(m - 1) * n + i]).abs_of();
        assert(dense_peak::<S>(w, n, i, m) == before.max_of(a));
    }
}

proof fn lemma_block_peak<S: Sample>(
    phi: spec_fn(S) -> real,
    peak: S,
    w: Seq<u32>,
    b: Block,
    i: int,
    c: nat,
    j: int,
)
    requires
        exact_rounding(phi),
    ensures
        phi(block_peak(peak, w, b, i, c)) >= phi(peak),
        0 <= j < c ==> within(
            phi(S::decoded(w[b.weight + SPARSE_ROWS * j + (i - b.row)])),
            phi(block_peak(peak, w, b, i, c)),
        ),
    decreases c,
{
    if c > 0 {
        lemma_block_peak(phi, peak, w, b, i, (c - 1) as nat, j);
        let before = block_peak(peak, w, b, i, (c - 1) as nat);
        let a = S::decoded(w[b.weight + SPARSE_ROWS * (c - 1) + (i - b.row)]).abs_of();
        assert(before.lt_of(a) <==> phi(before) < phi(a));
    }
}

proof fn lemma_sparse_peak<S: Sample>(
    phi: spec_fn(S) -> real,
    w: Seq<u32>,
    blocks: Seq<Block>,
    i: int,
    count: nat,
    k: int,
    j: int,
)
    requires
        exact_rounding(phi),
        count <= blocks.len(),
    ensures
        phi(sparse_peak::<S>(w, blocks, i, count)) >= 0real,
        0 <= k < count && nnet::covers(blocks[k], i) && 0 <= j < SPARSE_COLS ==> within(
            phi(S::decoded(w[blocks[k].weight + SPARSE_ROWS * j + (i - blocks[k].row)])),
            phi(sparse_peak::<S>(w, blocks, i, count)),
        ),
    decreases count,
{
    if count > 0 {
        lemma_sparse_peak(phi, w, blocks, i, (count - 1) as nat, k, j);
        let before = sparse_peak::<S>(w, blocks, i, (count - 1) as nat);
        lemma_block_peak(phi, before, w, blocks[count - 1], i, SPARSE_COLS as nat, j);
    }
}

/// Where a weight of a sparse layer stands in its block.
proof fn lemma_block_of_weight(layer: LayerView, idx: Seq<i32>, k: int)
    requires
        layer.wf(),
        layer.nb_outputs <= usize::MAX,
        layer.weight_count() <= usize::MAX,
        layer.weights_idx == Some(idx),
        0 <= k < layer.weight_count(),
    ensures
        0 <= k / 32 < sparse::blocks_of(idx).len(),
        0 <= (k % 32) / 8 < SPARSE_COLS,
        nnet::covers(sparse::blocks_of(idx)[k / 32], output_of(layer, k)),
        k == ({
            let b = sparse::blocks_of(idx)[k / 32];
            b.weight + SPARSE_ROWS * ((k % 32) / 8) + (output_of(layer, k) - b.row)
        }),
{
    sparse::lemma_block_list(idx, 0, 0, layer.nb_outputs as int, 0);
    let blocks = sparse::blocks_of(idx);
    let at = k / 32;
    assert(k == 32 * at + 8 * ((k % 32) / 8) + k % 8);
    assert(blocks[at].weight == SPARSE_BLOCK_SIZE * at);
}

/// No weight is larger than the peak of its output.
proof fn lemma_peak<S: Sample>(phi: spec_fn(S) -> real, layer: LayerView, w: Seq<u32>, k: int)
    requires
        exact_rounding(phi),
        layer.wf(),
        layer.nb_outputs <= usize::MAX,
        layer.weight_count() <= usize::MAX,
        layer.weights == WeightsView::Float(w),
        0 <= k < w.len(),
    ensures
        phi(peak::<S>(layer, w, output_of(layer, k))) >= 0real,
        within(phi(S::decoded(w[k])), phi(peak::<S>(layer, w, output_of(layer, k)))),
{
    let i = output_of(layer, k);
    match layer.weights_idx {
        None => {
            let n = layer.nb_outputs as int;
            let m = layer.nb_inputs as int;
            assert(n > 0) by (nonlinear_arith)
                requires
                    k < m * n,
                    0 <= k,
                    n >= 0,
            ;
            lemma_fundamental_div_mod(k, n);
            assert(n * (k / n) == (k / n) * n) by (nonlinear_arith);
            assert(0 <= k / n < m) by (nonlinear_arith)
                requires
                    k == (k / n) * n + k % n,
                    0 <= k % n < n,
                    0 <= k < m * n,
                    n > 0,
            ;
            lemma_dense_peak(phi, w, n, i, layer.nb_inputs, k / n);
        },
        Some(idx) => {
            lemma_block_of_weight(layer, idx, k);
            let blocks = sparse::blocks_of(idx);
            lemma_sparse_peak(phi, w, blocks, i, blocks.len(), k / 32, (k % 32) / 8);
        },
    }
}

/// Each 8-bit weight times its scale is the full-precision weight to within
/// half a scale, in arithmetic that only rounds to integers.
pub proof fn lemma_quantised_error<S: Sample>(
    phi: spec_fn(S) -> real,
    layer: &LinearLayer,
    w: Seq<u32>,
    k: int,
)
    requires
        exact_rounding(phi),
        layer@.wf(),
        layer@.weights == WeightsView::Float(w),
        0 <= k < w.len(),
    ensures
        ({
            let scale = phi(scale_of::<S>(layer@, w, output_of(layer@, k)));
            let q = quantised::<S>(layer@).weights->w[k] as int as real;
            within((q * scale - phi(S::decoded(w[k]))) * 2real, scale)
        }),
{
    let s = scale_of::<S>(layer@, w, output_of(layer@, k));
    let top = peak::<S>(layer@, w, output_of(layer@, k));
    let a = S::decoded(w[k]);
    layer.lemma_weight_count();
    lemma_peak(phi, layer@, w, k);
    let q = in_units::<S>(a, s);
    assert(quantised::<S>(layer@).weights->w[k] == q);
    assert(phi(s) * phi(S::num(127)) == phi(top));
    assert(phi(s) * 127real == phi(top));
    assert(S::nil().lt_of(s) <==> phi(S::nil()) < phi(s));
    if S::nil().lt_of(s) {
        let x = a / s;
        assert(phi(x) * phi(s) == phi(a));
        lemma_quotient_bound(phi(x), phi(s));
        assert(-127real <= phi(x) <= 127real);
        let n = x.nearest() as int;
        assert(n as real * 2real - 1real <= phi(x) * 2real <= n as real * 2real + 1real);
        assert(-128 < n < 128);
        assert(q as int == n);
        lemma_half_step(phi(x), phi(s), n as real);
    } else {
        assert(phi(s) == 0real);
        assert(phi(a) == 0real);
    }
}

proof fn lemma_quotient_bound(x: real, s: real)
    requires
        s > 0real,
        within(x * s, s * 127real),
    ensures
        within(x, 127real),
{
    assert(within(x, 127real)) by (nonlinear_arith)
        requires
            s > 0real,
            -(s * 127real) <= x * s <= s * 127real,
    ;
}

proof fn lemma_half_step(x: real, s: real, n: real)
    requires
        s > 0real,
        n * 2real - 1real <= x * 2real <= n * 2real + 1real,
    ensures
        within((n * s - x * s) * 2real, s),
{
    assert(within((n * s - x * s) * 2real, s)) by (nonlinear_arith)
        requires
            s > 0real,
            n * 2real - 1real <= x * 2real <= n * 2real + 1real,
    ;
}

} // verus!
