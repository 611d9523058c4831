//! The affine layers of the network: how their weights are held.
//!
//! Floating-point weights are kept in their 32-bit encoding, as they stand in
//! the blob.

use vstd::prelude::*;
use crate::sparse::{sparse_blocks, SPARSE_BLOCK_SIZE, SPARSE_COLS};
use crate::sparse;

verus! {

/// Weights of a layer: full-precision numbers, or 8-bit integers with a scale
/// per output.
pub enum Weights {
    Float(Vec<u32>),
    Q8 { w: Vec<i8>, scale: Vec<u32> },
}

/// [`Weights`] with the vectors as sequences.
pub enum WeightsView {
    Float(Seq<u32>),
    Q8 { w: Seq<i8>, scale: Seq<u32> },
}

impl View for Weights {
    type V = WeightsView;

    open spec fn view(&self) -> WeightsView {
        match *self {
            Weights::Float(w) => WeightsView::Float(w@),
            Weights::Q8 { w, scale } => WeightsView::Q8 { w: w@, scale: scale@ },
        }
    }
}

/// An affine transform with dense or sparse weights, a bias and, for recurrent
/// layers, a diagonal.
pub struct LinearLayer {
    pub bias: Vec<u32>,
    pub weights: Weights,
    /// Block structure of the weights; present for sparse layers.
    pub weights_idx: Option<Vec<i32>>,
    /// Diagonal that is applied to the input three times over; present for
    /// recurrent layers.
    pub diag: Option<Vec<u32>>,
    pub nb_inputs: usize,
    pub nb_outputs: usize,
}

/// A [`LinearLayer`] with the vectors as sequences.
pub struct LayerView {
    pub bias: Seq<u32>,
    pub weights: WeightsView,
    pub weights_idx: Option<Seq<i32>>,
    pub diag: Option<Seq<u32>>,
    pub nb_inputs: nat,
    pub nb_outputs: nat,
}

/// An optional vector with its elements as a sequence.
pub open spec fn opt_view<T>(v: Option<Vec<T>>) -> Option<Seq<T>> {
    match v {
        Some(x) => Some(x@),
        None => None,
    }
}

impl View for LinearLayer {
    type V = LayerView;

    open spec fn view(&self) -> LayerView {
        LayerView {
            bias: self.bias@,
            weights: self.weights@,
            weights_idx: opt_view(self.weights_idx),
            diag: opt_view(self.diag),
            nb_inputs: self.nb_inputs as nat,
            nb_outputs: self.nb_outputs as nat,
        }
    }
}

impl LayerView {
    /// Number of weights.
    pub open spec fn weight_count(self) -> nat {
        match self.weights {
            WeightsView::Float(w) => w.len(),
            WeightsView::Q8 { w, scale } => w.len(),
        }
    }

    /// All lengths agree with the layer's dimensions and block structure.
    pub open spec fn wf(self) -> bool {
        &&& self.bias.len() == self.nb_outputs
        &&& match self.weights_idx {
            None => self.weight_count() == self.nb_inputs * self.nb_outputs,
            Some(idx) => sparse::total_blocks(idx, self.nb_outputs as int) matches Some(t)
                && self.weight_count() == SPARSE_BLOCK_SIZE * t,
        }
        &&& self.weights matches WeightsView::Q8 { w, scale } ==> scale.len() == self.nb_outputs
        &&& self.diag matches Some(d) ==> d.len() == self.nb_outputs
    }

    /// Every block of a sparse layer reads columns that the input has.
    pub open spec fn columns_ok(self) -> bool {
        self.weights_idx matches Some(idx) ==> forall|k: int|
            0 <= k < sparse::blocks_of(idx).len() ==> sparse::in_columns(
                #[trigger] sparse::blocks_of(idx)[k],
                self.nb_inputs as int,
            )
    }
}

impl LinearLayer {
    /// The number of weights fits a machine word.
    pub proof fn lemma_weight_count(&self)
        ensures
            self@.weight_count() <= usize::MAX,
    {
        match self.weights {
            Weights::Float(w) => {
                assert(w@.len() == w.len());
            },
            Weights::Q8 { w, scale } => {
                assert(w@.len() == w.len());
            },
        }
    }

    /// Check that every block of a sparse layer reads columns that the input
    /// has.
    pub fn columns_in_range(&self) -> (ok: bool)
        requires
            self@.wf(),
        ensures
            ok == self@.columns_ok(),
    {
        match &self.weights_idx {
            None => true,
            Some(idx) => {
                proof {
                    self.lemma_weight_count();
                }
                let blocks = sparse_blocks(idx, self.nb_outputs);
                let mut k: usize = 0;
                while k < blocks.len()
                    invariant
                        blocks@ == sparse::blocks_of(idx@),
                        self@.weights_idx == Some(idx@),
                        k <= blocks@.len(),
                        forall|j: int|
                            0 <= j < k ==> sparse::in_columns(
                                #[trigger] sparse::blocks_of(idx@)[j],
                                self.nb_inputs as int,
                            ),
                    decreases blocks@.len() - k,
                {
                    let col = blocks[k].col;
                    if col < 0 || self.nb_inputs < SPARSE_COLS || col as usize > self.nb_inputs
                        - SPARSE_COLS {
                        assert(!sparse::in_columns(
                            sparse::blocks_of(self@.weights_idx->Some_0)[k as int],
                            self@.nb_inputs as int,
                        ));
                        return false;
                    }
                    k += 1;
                }
                true
            },
        }
    }
}

} // verus!
