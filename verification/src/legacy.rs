//! The smaller network: its layers and the format that its weights come in.
//!
//! The weights are bytes that are read as signed integers. A layer is the
//! number of its inputs, the number of its neurons, its activation, its
//! weights and its biases. Six layers follow one another without padding.

use vstd::prelude::*;
use vstd::arithmetic::div_mod::*;
use crate::weights::{ErrorView, ModelError};

verus! {

/// Number of bands.
pub const NB_BANDS: usize = 22;

/// Number of features of a frame.
pub const NB_FEATURES: usize = 42;

/// The largest number of neurons of a layer.
pub const MAX_NEURONS: usize = 128;

/// What a layer applies to its outputs.
#[derive(Clone, Copy, Debug, PartialEq, Eq)]
pub enum Act {
    Tanh,
    Sigmoid,
    Relu,
}

/// The activation with the given number.
pub open spec fn act_of(x: i8) -> Option<Act> {
    if x == 0 {
        Some(Act::Tanh)
    } else if x == 1 {
        Some(Act::Sigmoid)
    } else if x == 2 {
        Some(Act::Relu)
    } else {
        None
    }
}

impl Act {
    /// The activation with the given number.
    pub fn from_i8(x: i8) -> (act: Option<Act>)
        ensures
            act == act_of(x),
    {
        match x {
            0 => Some(Act::Tanh),
            1 => Some(Act::Sigmoid),
            2 => Some(Act::Relu),
            _ => None,
        }
    }
}

/// A dense layer; the weights are stored input by input.
pub struct DenseLayer {
    pub bias: Vec<i8>,
    pub weights: Vec<i8>,
    pub nb_inputs: usize,
    pub nb_neurons: usize,
    pub activation: Act,
}

/// A [`DenseLayer`] with the vectors as sequences.
pub struct DenseView {
    pub bias: Seq<i8>,
    pub weights: Seq<i8>,
    pub nb_inputs: nat,
    pub nb_neurons: nat,
    pub activation: Act,
}

impl View for DenseLayer {
    type V = DenseView;

    open spec fn view(&self) -> DenseView {
        DenseView {
            bias: self.bias@,
            weights: self.weights@,
            nb_inputs: self.nb_inputs as nat,
            nb_neurons: self.nb_neurons as nat,
            activation: self.activation,
        }
    }
}

/// A gated recurrent layer. The input weights are stored gate output by gate
/// output, the recurrent weights neuron by neuron.
pub struct GruLayer {
    pub bias: Vec<i8>,
    pub input_weights_t: Vec<i8>,
    pub recurrent_weights: Vec<i8>,
    pub nb_inputs: usize,
    pub nb_neurons: usize,
    pub activation: Act,
}

/// A [`GruLayer`] with the vectors as sequences.
pub struct GruView {
    pub bias: Seq<i8>,
    pub input_weights_t: Seq<i8>,
    pub recurrent_weights: Seq<i8>,
    pub nb_inputs: nat,
    pub nb_neurons: nat,
    pub activation: Act,
}

impl View for GruLayer {
    type V = GruView;

    open spec fn view(&self) -> GruView {
        GruView {
            bias: self.bias@,
            input_weights_t: self.input_weights_t@,
            recurrent_weights: self.recurrent_weights@,
            nb_inputs: self.nb_inputs as nat,
            nb_neurons: self.nb_neurons as nat,
            activation: self.activation,
        }
    }
}

impl DenseView {
    /// All lengths agree with the layer's dimensions.
    pub open spec fn wf(self) -> bool {
        &&& self.nb_inputs <= 127
        &&& self.nb_neurons <= 127
        &&& self.bias.len() == self.nb_neurons
        &&& self.weights.len() == self.nb_inputs * self.nb_neurons
    }
}

impl GruView {
    /// All lengths agree with the layer's dimensions.
    pub open spec fn wf(self) -> bool {
        &&& self.nb_inputs <= 127
        &&& self.nb_neurons <= 127
        &&& self.bias.len() == 3 * self.nb_neurons
        &&& self.input_weights_t.len() == 3 * self.nb_neurons * self.nb_inputs
        &&& self.recurrent_weights.len() == 3 * self.nb_neurons * self.nb_neurons
    }
}

/// A `rows` by `cols` matrix, stored row by row, with rows and columns
/// exchanged.
pub open spec fn transposed(m: Seq<i8>, rows: nat, cols: nat) -> Seq<i8> {
    Seq::new(rows * cols, |k: int| m[(k % rows as int) * cols + k / rows as int])
}

/// What a layer starts with: its dimensions and its activation.
pub struct Header {
    pub nb_inputs: nat,
    pub nb_neurons: nat,
    pub activation: Act,
}

/// The header at `pos`; `None` where it is cut off, a dimension is negative or
/// the activation is unknown.
pub open spec fn header_at(data: Seq<i8>, pos: int) -> Option<Header> {
    if pos + 3 > data.len() || data[pos] < 0 || data[pos + 1] < 0 {
        None
    } else {
        match act_of(data[pos + 2]) {
            None => None,
            Some(activation) => Some(
                Header {
                    nb_inputs: data[pos] as nat,
                    nb_neurons: data[pos + 1] as nat,
                    activation,
                },
            ),
        }
    }
}

/// The dense layer at `pos`, and where it ends.
#[verifier::opaque]
pub open spec fn dense_at(data: Seq<i8>, pos: int) -> Option<(DenseView, int)> {
    match header_at(data, pos) {
        None => None,
        Some(h) => {
            let a = pos + 3;
            let b = a + h.nb_neurons * h.nb_inputs;
            let end = b + h.nb_neurons;
            if end > data.len() {
                None
            } else {
                Some(
                    (
                        DenseView {
                            bias: data.subrange(b, end),
                            weights: data.subrange(a, b),
                            nb_inputs: h.nb_inputs,
                            nb_neurons: h.nb_neurons,
                            activation: h.activation,
                        },
                        end,
                    ),
                )
            }
        },
    }
}

/// The recurrent layer at `pos`, and where it ends.
#[verifier::opaque]
pub open spec fn gru_at(data: Seq<i8>, pos: int) -> Option<(GruView, int)> {
    match header_at(data, pos) {
        None => None,
        Some(h) => {
            let a = pos + 3;
            let b = a + 3 * h.nb_neurons * h.nb_inputs;
            let c = b + 3 * h.nb_neurons * h.nb_neurons;
            let end = c + 3 * h.nb_neurons;
            if end > data.len() {
                None
            } else {
                Some(
                    (
                        GruView {
                            bias: data.subrange(c, end),
                            input_weights_t: transposed(
                                data.subrange(a, b),
                                h.nb_inputs,
                                3 * h.nb_neurons,
                            ),
                            recurrent_weights: data.subrange(b, c),
                            nb_inputs: h.nb_inputs,
                            nb_neurons: h.nb_neurons,
                            activation: h.activation,
                        },
                        end,
                    ),
                )
            }
        },
    }
}

/// Reads the layers of a model one after another.
pub struct Reader<'a> {
    pub data: &'a [i8],
    pub pos: usize,
}

impl<'a> Reader<'a> {
    /// The reader is inside its data.
    pub open spec fn wf(&self) -> bool {
        self.pos <= self.data@.len()
    }

    /// Read a dimension.
    pub fn u(&mut self) -> (r: Result<usize, ModelError>)
        requires
            old(self).wf(),
        ensures
            final(self).wf(),
            final(self).data == old(self).data,
            match r {
                Ok(n) => {
                    &&& old(self).pos < old(self).data@.len()
                    &&& n == old(self).data@[old(self).pos as int]
                    &&& final(self).pos == old(self).pos + 1
                },
                Err(e) => {
                    &&& e@ == ErrorView::Malformed
                    &&& if old(self).pos < old(self).data@.len() {
                        &&& old(self).data@[old(self).pos as int] < 0
                        &&& final(self).pos == old(self).pos + 1
                    } else {
                        final(self).pos == old(self).pos
                    }
                },
            },
    {
        if self.pos >= self.data.len() {
            return Err(ModelError::Malformed);
        }
        let b = self.data[self.pos];
        self.pos += 1;
        if b < 0 {
            return Err(ModelError::Malformed);
        }
        Ok(b as usize)
    }

    /// Read `n` integers.
    pub fn take(&mut self, n: usize) -> (r: Result<Vec<i8>, ModelError>)
        requires
            old(self).wf(),
        ensures
            final(self).wf(),
            final(self).data == old(self).data,
            match r {
                Ok(v) => {
                    &&& old(self).pos + n <= old(self).data@.len()
                    &&& v@ == old(self).data@.subrange(
                        old(self).pos as int,
                        old(self).pos + n,
                    )
                    &&& final(self).pos == old(self).pos + n
                },
                Err(e) => {
                    &&& e@ == ErrorView::Malformed
                    &&& old(self).pos + n > old(self).data@.len()
                    &&& final(self).pos == old(self).pos
                },
            },
    {
        if n > self.data.len() - self.pos {
            return Err(ModelError::Malformed);
        }
        let end: usize = self.pos + n;
        let start: usize = self.pos;
        let mut v: Vec<i8> = Vec::new();
        let mut i: usize = start;
        while i < end
            invariant
                start <= i <= end,
                end <= self.data@.len(),
                v@ == self.data@.subrange(start as int, i as int),
            decreases end - i,
        {
            v.push(self.data[i]);
            i += 1;
            assert(v@ == self.data@.subrange(start as int, i as int));
        }
        self.pos = end;
        Ok(v)
    }

    /// Read an activation.
    pub fn act(&mut self) -> (r: Result<Act, ModelError>)
        requires
            old(self).wf(),
        ensures
            final(self).wf(),
            final(self).data == old(self).data,
            match r {
                Ok(a) => {
                    &&& old(self).pos < old(self).data@.len()
                    &&& act_of(old(self).data@[old(self).pos as int]) == Some(a)
                    &&& final(self).pos == old(self).pos + 1
                },
                Err(e) => {
                    &&& e@ == ErrorView::Malformed
                    &&& if old(self).pos < old(self).data@.len() {
                        &&& act_of(old(self).data@[old(self).pos as int]) is None
                        &&& final(self).pos == old(self).pos + 1
                    } else {
                        final(self).pos == old(self).pos
                    }
                },
            },
    {
        if self.pos >= self.data.len() {
            return Err(ModelError::Malformed);
        }
        let b = self.data[self.pos];
        self.pos += 1;
        match Act::from_i8(b) {
            Some(a) => Ok(a),
            None => Err(ModelError::Malformed),
        }
    }

    /// Read a dense layer.
    pub fn dense(&mut self) -> (r: Result<DenseLayer, ModelError>)
        requires
            old(self).wf(),
        ensures
            final(self).wf(),
            final(self).data == old(self).data,
            match r {
                Ok(layer) => {
                    &&& dense_at(old(self).data@, old(self).pos as int) == Some(
                        (layer@, final(self).pos as int),
                    )
                    &&& layer@.wf()
                },
                Err(e) => {
                    &&& e@ == ErrorView::Malformed
                    &&& dense_at(old(self).data@, old(self).pos as int) is None
                },
            },
    {
        reveal(dense_at);
        let nb_inputs = match self.u() {
            Ok(n) => n,
            Err(e) => return Err(e),
        };
        let nb_neurons = match self.u() {
            Ok(n) => n,
            Err(e) => return Err(e),
        };
        let activation = match self.act() {
            Ok(a) => a,
            Err(e) => return Err(e),
        };
        assert(nb_neurons * nb_inputs <= 127 * 127) by (nonlinear_arith)
            requires
                nb_neurons <= 127,
                nb_inputs <= 127,
        ;
        assert(nb_neurons * nb_inputs == nb_inputs * nb_neurons) by (nonlinear_arith);
        assert(nb_neurons * nb_inputs >= 0) by (nonlinear_arith);
        let weights = match self.take(nb_neurons * nb_inputs) {
            Ok(v) => v,
            Err(e) => return Err(e),
        };
        let bias = match self.take(nb_neurons) {
            Ok(v) => v,
            Err(e) => return Err(e),
        };
        Ok(DenseLayer { bias, weights, nb_inputs, nb_neurons, activation })
    }

    /// Read a recurrent layer.
    pub fn gru(&mut self) -> (r: Result<GruLayer, ModelError>)
        requires
            old(self).wf(),
        ensures
            final(self).wf(),
            final(self).data == old(self).data,
            match r {
                Ok(layer) => {
                    &&& gru_at(old(self).data@, old(self).pos as int) == Some(
                        (layer@, final(self).pos as int),
                    )
                    &&& layer@.wf()
                },
                Err(e) => {
                    &&& e@ == ErrorView::Malformed
                    &&& gru_at(old(self).data@, old(self).pos as int) is None
                },
            },
    {
        reveal(gru_at);
        let nb_inputs = match self.u() {
            Ok(n) => n,
            Err(e) => return Err(e),
        };
        let nb_neurons = match self.u() {
            Ok(n) => n,
            Err(e) => return Err(e),
        };
        let activation = match self.act() {
            Ok(a) => a,
            Err(e) => return Err(e),
        };
        let out3: usize = 3 * nb_neurons;
        assert(0 <= out3 * nb_inputs <= 3 * 127 * 127 && 0 <= out3 * nb_neurons <= 3 * 127 * 127)
            by (nonlinear_arith)
            requires
                out3 == 3 * nb_neurons,
                nb_neurons <= 127,
                nb_inputs <= 127,
        ;
        let input_weights = match self.take(out3 * nb_inputs) {
            Ok(v) => v,
            Err(e) => return Err(e),
        };
        let recurrent_weights = match self.take(out3 * nb_neurons) {
            Ok(v) => v,
            Err(e) => return Err(e),
        };
        let bias = match self.take(out3) {
            Ok(v) => v,
            Err(e) => return Err(e),
        };
        assert(nb_inputs * out3 == out3 * nb_inputs) by (nonlinear_arith);
        assert(input_weights@.len() == out3 * nb_inputs);
        let input_weights_t = transpose(&input_weights, nb_inputs, out3);
        Ok(
            GruLayer {
                bias,
                input_weights_t,
                recurrent_weights,
                nb_inputs,
                nb_neurons,
                activation,
            },
        )
    }
}

/// Exchange the rows and columns of a matrix that is stored row by row.
fn transpose(m: &Vec<i8>, rows: usize, cols: usize) -> (t: Vec<i8>)
    requires
        m@.len() == rows * cols,
    ensures
        t@ == transposed(m@, rows as nat, cols as nat),
{
    let mut t: Vec<i8> = Vec::new();
    let mut k: usize = 0;
    while k < m.len()
        invariant
            m@.len() == rows * cols,
            k <= m@.len(),
            t@.len() == k,
            forall|j: int| 0 <= j < k ==> #[trigger] t@[j] == transposed(m@, rows as nat, cols as nat)[j],
        decreases m@.len() - k,
    {
        assert(rows > 0) by (nonlinear_arith)
            requires
                k < rows * cols,
                k >= 0,
        ;
        let row: usize = k % rows;
        let col: usize = k / rows;
        proof {
            lemma_fundamental_div_mod(k as int, rows as int);
            assert(col < cols) by (nonlinear_arith)
                requires
                    k == rows * col + row,
                    k < rows * cols,
            ;
            assert(row * cols + col < rows * cols && row * cols <= rows * cols) by (nonlinear_arith)
                requires
                    row < rows,
                    col < cols,
            ;
        }
        assert(m@.len() == m.len());
        t.push(m[row * cols + col]);
        k += 1;
    }
    t
}

/// The network: a dense layer, three recurrent layers and two output layers.
pub struct RnnModelV1 {
    pub input_dense: DenseLayer,
    pub vad_gru: GruLayer,
    pub noise_gru: GruLayer,
    pub denoise_gru: GruLayer,
    pub denoise_output: DenseLayer,
    pub vad_output: DenseLayer,
}

/// An [`RnnModelV1`] with the vectors as sequences.
pub struct ModelView {
    pub input_dense: DenseView,
    pub vad_gru: GruView,
    pub noise_gru: GruView,
    pub denoise_gru: GruView,
    pub denoise_output: DenseView,
    pub vad_output: DenseView,
}

impl View for RnnModelV1 {
    type V = ModelView;

    open spec fn view(&self) -> ModelView {
        ModelView {
            input_dense: self.input_dense@,
            vad_gru: self.vad_gru@,
            noise_gru: self.noise_gru@,
            denoise_gru: self.denoise_gru@,
            denoise_output: self.denoise_output@,
            vad_output: self.vad_output@,
        }
    }
}

impl ModelView {
    /// The layers fit together: the dense layer sees the features, the first
    /// recurrent layer the dense layer, the second one the dense layer, the
    /// first and the features, the third one the first, the second and the
    /// features; the output layers see the third and the first.
    pub open spec fn wired(self) -> bool {
        &&& self.input_dense.nb_inputs == NB_FEATURES
        &&& self.denoise_output.nb_neurons == NB_BANDS
        &&& self.vad_output.nb_neurons == 1
        &&& self.vad_gru.nb_inputs == self.input_dense.nb_neurons
        &&& self.noise_gru.nb_inputs == NB_FEATURES + self.input_dense.nb_neurons
            + self.vad_gru.nb_neurons
        &&& self.denoise_gru.nb_inputs == NB_FEATURES + self.vad_gru.nb_neurons
            + self.noise_gru.nb_neurons
        &&& self.denoise_output.nb_inputs == self.denoise_gru.nb_neurons
        &&& self.vad_output.nb_inputs == self.vad_gru.nb_neurons
        &&& self.noise_gru.nb_neurons <= MAX_NEURONS
        &&& self.denoise_gru.nb_neurons <= MAX_NEURONS
    }

    /// All layers are well formed and fit together.
    pub open spec fn wf(self) -> bool {
        &&& self.input_dense.wf()
        &&& self.vad_gru.wf()
        &&& self.noise_gru.wf()
        &&& self.denoise_gru.wf()
        &&& self.denoise_output.wf()
        &&& self.vad_output.wf()
        &&& self.wired()
    }
}

/// The six layers of a model; `None` where one of them is not valid or
/// something follows the last.
pub open spec fn layers_in(data: Seq<i8>) -> Option<ModelView> {
    match dense_at(data, 0) {
        None => None,
        Some((input_dense, p1)) => match gru_at(data, p1) {
            None => None,
            Some((vad_gru, p2)) => match gru_at(data, p2) {
                None => None,
                Some((noise_gru, p3)) => match gru_at(data, p3) {
                    None => None,
                    Some((denoise_gru, p4)) => match dense_at(data, p4) {
                        None => None,
                        Some((denoise_output, p5)) => match dense_at(data, p5) {
                            None => None,
                            Some((vad_output, p6)) => if p6 != data.len() {
                                None
                            } else {
                                Some(
                                    ModelView {
                                        input_dense,
                                        vad_gru,
                                        noise_gru,
                                        denoise_gru,
                                        denoise_output,
                                        vad_output,
                                    },
                                )
                            },
                        },
                    },
                },
            },
        },
    }
}

/// Bytes as signed integers.
pub open spec fn signed(bytes: Seq<u8>) -> Seq<i8> {
    Seq::new(bytes.len(), |i: int| signed_byte(bytes[i]))
}

/// The two's-complement number that a byte encodes.
pub open spec fn signed_byte(b: u8) -> i8 {
    if b < 128 {
        b as i8
    } else {
        (b - 256) as i8
    }
}

/// The model that some bytes hold; `None` where they hold none.
pub open spec fn model_in(bytes: Seq<u8>) -> Option<ModelView> {
    match layers_in(signed(bytes)) {
        Some(m) => if m.wired() {
            Some(m)
        } else {
            None
        },
        None => None,
    }
}

fn to_signed(b: u8) -> (x: i8)
    ensures
        x == signed_byte(b),
{
    if b < 128 {
        b as i8
    } else {
        (b - 128) as i8 + i8::MIN
    }
}

impl RnnModelV1 {
    /// Load a model: six layers in a row, with nothing after them, that fit
    /// together.
    pub fn from_bytes(bytes: &[u8]) -> (r: Result<RnnModelV1, ModelError>)
        ensures
            match r {
                Ok(m) => model_in(bytes@) == Some(m@) && m@.wf(),
                Err(e) => e@ == ErrorView::Malformed && model_in(bytes@) is None,
            },
    {
        let mut data: Vec<i8> = Vec::new();
        let mut i: usize = 0;
        while i < bytes.len()
            invariant
                i <= bytes@.len(),
                data@.len() == i,
                forall|k: int| 0 <= k < i ==> #[trigger] data@[k] == signed_byte(bytes@[k]),
            decreases bytes@.len() - i,
        {
            data.push(to_signed(bytes[i]));
            i += 1;
        }
        assert(data@ == signed(bytes@));
        let mut r = Reader { data: data.as_slice(), pos: 0 };
        let input_dense = match r.dense() {
            Ok(layer) => layer,
            Err(e) => return Err(e),
        };
        let vad_gru = match r.gru() {
            Ok(layer) => layer,
            Err(e) => return Err(e),
        };
        let noise_gru = match r.gru() {
            Ok(layer) => layer,
            Err(e) => return Err(e),
        };
        let denoise_gru = match r.gru() {
            Ok(layer) => layer,
            Err(e) => return Err(e),
        };
        let denoise_output = match r.dense() {
            Ok(layer) => layer,
            Err(e) => return Err(e),
        };
        let vad_output = match r.dense() {
            Ok(layer) => layer,
            Err(e) => return Err(e),
        };
        if r.pos != data.len() {
            return Err(ModelError::Malformed);
        }
        if input_dense.nb_inputs != NB_FEATURES || denoise_output.nb_neurons != NB_BANDS
            || vad_output.nb_neurons != 1 || input_dense.nb_neurons != vad_gru.nb_inputs
            || NB_FEATURES + input_dense.nb_neurons + vad_gru.nb_neurons != noise_gru.nb_inputs
            || NB_FEATURES + vad_gru.nb_neurons + noise_gru.nb_neurons != denoise_gru.nb_inputs
            || denoise_gru.nb_neurons != denoise_output.nb_inputs || vad_gru.nb_neurons
            != vad_output.nb_inputs || noise_gru.nb_neurons > MAX_NEURONS
            || denoise_gru.nb_neurons > MAX_NEURONS {
            return Err(ModelError::Malformed);
        }
        Ok(
            RnnModelV1 {
                input_dense,
                vad_gru,
                noise_gru,
                denoise_gru,
                denoise_output,
                vad_output,
            },
        )
    }
}

/// The number of an activation.
pub open spec fn act_number(act: Act) -> i8 {
    match act {
        Act::Tanh => 0,
        Act::Sigmoid => 1,
        Act::Relu => 2,
    }
}

impl DenseView {
    /// The layer as it is stored.
    pub open spec fn stored(self) -> Seq<i8> {
        seq![self.nb_inputs as i8, self.nb_neurons as i8, act_number(self.activation)]
            + self.weights + self.bias
    }
}

impl GruView {
    /// The layer as it is stored.
    pub open spec fn stored(self) -> Seq<i8> {
        seq![self.nb_inputs as i8, self.nb_neurons as i8, act_number(self.activation)]
            + transposed(self.input_weights_t, 3 * self.nb_neurons, self.nb_inputs)
            + self.recurrent_weights + self.bias
    }
}

impl ModelView {
    /// The model as it is stored: its layers one after another.
    pub open spec fn stored(self) -> Seq<i8> {
        self.input_dense.stored() + self.vad_gru.stored() + self.noise_gru.stored()
            + self.denoise_gru.stored() + self.denoise_output.stored() + self.vad_output.stored()
    }
}

/// Exchanging rows and columns twice gives back the matrix.
pub proof fn lemma_transposed_twice(m: Seq<i8>, rows: nat, cols: nat)
    requires
        m.len() == rows * cols,
    ensures
        transposed(transposed(m, rows, cols), cols, rows) == m,
{
    let t = transposed(m, rows, cols);
    assert(rows * cols == cols * rows) by (nonlinear_arith);
    assert forall|k: int| 0 <= k < m.len() implies transposed(t, cols, rows)[k] == m[k] by {
        let (a, b) = (rows as int, cols as int);
        assert(a > 0 && b > 0) by (nonlinear_arith)
            requires
                0 <= k < a * b,
                a >= 0,
                b >= 0,
        ;
        let row = k / b;
        let col = k % b;
        lemma_fundamental_div_mod(k, b);
        assert(0 <= row < a) by (nonlinear_arith)
            requires
                k == b * row + col,
                0 <= col < b,
                0 <= k < a * b,
        ;
        let at = col * a + row;
        assert(0 <= at < a * b) by (nonlinear_arith)
            requires
                at == col * a + row,
                0 <= col < b,
                0 <= row < a,
        ;
        lemma_fundamental_div_mod_converse(at, a, col, row);
        assert(t[at] == m[row * b + col]);
        assert(b * row == row * b) by (nonlinear_arith);
    }
    assert(transposed(t, cols, rows) =~= m);
}

/// A stored dense layer reads back, wherever it stands.
proof fn lemma_dense_stored(before: Seq<i8>, l: DenseView, after: Seq<i8>)
    requires
        l.wf(),
    ensures
        dense_at(before + l.stored() + after, before.len() as int) == Some(
            (l, (before.len() + l.stored().len()) as int),
        ),
{
    reveal(dense_at);
    let b = before + l.stored() + after;
    let pos = before.len() as int;
    let s = l.stored();
    assert forall|i: int| 0 <= i < s.len() implies b[pos + i] == s[i] by {}
    assert(s[0] == l.nb_inputs as i8 && s[1] == l.nb_neurons as i8 && s[2] == act_number(
        l.activation,
    ));
    assert(b[pos + 0] == s[0] && b[pos + 1] == s[1] && b[pos + 2] == s[2]);
    assert(l.nb_neurons * l.nb_inputs == l.nb_inputs * l.nb_neurons) by (nonlinear_arith);
    let a = pos + 3;
    let c = a + l.nb_neurons * l.nb_inputs;
    assert(b.subrange(a, c) =~= l.weights);
    assert(b.subrange(c, c + l.nb_neurons) =~= l.bias);
}

/// A stored recurrent layer reads back, wherever it stands.
proof fn lemma_gru_stored(before: Seq<i8>, l: GruView, after: Seq<i8>)
    requires
        l.wf(),
    ensures
        gru_at(before + l.stored() + after, before.len() as int) == Some(
            (l, (before.len() + l.stored().len()) as int),
        ),
{
    reveal(gru_at);
    let b = before + l.stored() + after;
    let pos = before.len() as int;
    let s = l.stored();
    let n3 = 3 * l.nb_neurons;
    let w = transposed(l.input_weights_t, n3, l.nb_inputs);
    assert(n3 * l.nb_inputs == 3 * l.nb_neurons * l.nb_inputs);
    assert(w.len() == n3 * l.nb_inputs);
    assert forall|i: int| 0 <= i < s.len() implies b[pos + i] == s[i] by {}
    assert(s[0] == l.nb_inputs as i8 && s[1] == l.nb_neurons as i8 && s[2] == act_number(
        l.activation,
    ));
    assert(b[pos + 0] == s[0] && b[pos + 1] == s[1] && b[pos + 2] == s[2]);
    let a = pos + 3;
    let c = a + 3 * l.nb_neurons * l.nb_inputs;
    let d = c + 3 * l.nb_neurons * l.nb_neurons;
    assert(b.subrange(a, c) =~= w);
    assert(b.subrange(c, d) =~= l.recurrent_weights);
    assert(b.subrange(d, d + n3) =~= l.bias);
    lemma_transposed_twice(l.input_weights_t, n3, l.nb_inputs);
}

/// Six sequences in a row, split at each of them.
proof fn lemma_six(
    s1: Seq<i8>,
    s2: Seq<i8>,
    s3: Seq<i8>,
    s4: Seq<i8>,
    s5: Seq<i8>,
    s6: Seq<i8>,
)
    ensures
        ({
            let all = s1 + s2 + s3 + s4 + s5 + s6;
            let none = Seq::<i8>::empty();
            &&& all == none + s1 + (s2 + s3 + s4 + s5 + s6)
            &&& all == s1 + s2 + (s3 + s4 + s5 + s6)
            &&& all == (s1 + s2) + s3 + (s4 + s5 + s6)
            &&& all == (s1 + s2 + s3) + s4 + (s5 + s6)
            &&& all == (s1 + s2 + s3 + s4) + s5 + s6
            &&& all == (s1 + s2 + s3 + s4 + s5) + s6 + none
        }),
{
}

/// A stored model reads back.
pub proof fn lemma_stored_layers(m: ModelView)
    requires
        m.wf(),
    ensures
        layers_in(m.stored()) == Some(m),
{
    let data = m.stored();
    let s1 = m.input_dense.stored();
    let s2 = m.vad_gru.stored();
    let s3 = m.noise_gru.stored();
    let s4 = m.denoise_gru.stored();
    let s5 = m.denoise_output.stored();
    let s6 = m.vad_output.stored();
    let none = Seq::<i8>::empty();
    lemma_six(s1, s2, s3, s4, s5, s6);
    assert(dense_at(data, 0) == Some((m.input_dense, s1.len() as int))) by {
        lemma_dense_stored(none, m.input_dense, s2 + s3 + s4 + s5 + s6);
    }
    let p2 = (s1.len() + s2.len()) as int;
    assert(gru_at(data, s1.len() as int) == Some((m.vad_gru, p2))) by {
        lemma_gru_stored(s1, m.vad_gru, s3 + s4 + s5 + s6);
    }
    let p3 = p2 + s3.len();
    assert(gru_at(data, p2) == Some((m.noise_gru, p3))) by {
        lemma_gru_stored(s1 + s2, m.noise_gru, s4 + s5 + s6);
    }
    let p4 = p3 + s4.len();
    assert(gru_at(data, p3) == Some((m.denoise_gru, p4))) by {
        lemma_gru_stored(s1 + s2 + s3, m.denoise_gru, s5 + s6);
    }
    let p5 = p4 + s5.len();
    assert(dense_at(data, p4) == Some((m.denoise_output, p5))) by {
        lemma_dense_stored(s1 + s2 + s3 + s4, m.denoise_output, s6);
    }
    let p6 = p5 + s6.len();
    assert(dense_at(data, p5) == Some((m.vad_output, p6))) by {
        lemma_dense_stored(s1 + s2 + s3 + s4 + s5, m.vad_output, none);
    }
    assert(p6 == data.len());
}

/// The byte that encodes a two's-complement number.
pub open spec fn unsigned_byte(x: i8) -> u8 {
    if x >= 0 {
        x as u8
    } else {
        (x + 256) as u8
    }
}

/// The bytes that a model is stored in.
pub open spec fn model_bytes(m: ModelView) -> Seq<u8> {
    m.stored().map_values(|x: i8| unsigned_byte(x))
}

/// The bytes that a model is stored in load as that model.
pub proof fn lemma_stored_round_trip(m: ModelView)
    requires
        m.wf(),
    ensures
        model_in(model_bytes(m)) == Some(m),
{
    lemma_stored_layers(m);
    assert(signed(model_bytes(m)) =~= m.stored());
}

} // verus!
