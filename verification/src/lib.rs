//! A multi-class perceptron over fixed-point arithmetic.
//!
//! Every real-valued quantity of the classical perceptron is represented
//! exactly as an integer numerator over a fixed power of the pixel range:
//!
//! * a feature is a numerator over 255, so a raw pixel intensity `p` in
//!   `0..=255` stands for the normalized value `p / 255` in `[0, 1]`;
//! * a learning rate is a numerator over 255;
//! * a weight or bias is a numerator over `255 * 255`.
//!
//! With these scales the perceptron update `w += lr * x` is the exact
//! integer addition `w += lr_num * x_num`, and a neuron's linear score
//! `bias + dot(weights, x)` has the exact integer numerator
//! `255 * bias_num + dot(weight_nums, x_nums)` over `255 * 255 * 255`.
//! Nothing is rounded anywhere, so prediction, tie-breaking and training
//! are exact and fully verified.

use vstd::prelude::*;

pub mod perceptron;
pub mod training;

verus! {

/// The errors the library surfaces. Each variant is returned exactly on the
/// inputs its function's contract states; no verified function panics.
#[derive(Debug, PartialEq, Eq, Clone)]
pub enum ModelError {
    /// A feature vector whose length differs from the model's input size.
    InvalidInputShape { expected: usize, actual: usize },
    /// A classifier built from no neurons, or from neurons of unequal sizes.
    InvalidModel,
    /// A malformed numeric token in a dataset row: the 0-based line and the
    /// 0-based token within that line.
    DatasetParse { line: usize, token: usize },
    /// An accuracy was requested over zero samples.
    EmptyDataset,
}

} // verus!
