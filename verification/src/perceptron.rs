//! Neurons and the perceptron classifier.
//!
//! A `Neuron` holds one linear discriminant: a weight vector and a bias,
//! both fixed-point numerators over `255 * 255`. A `Perceptron` holds one
//! neuron per class and predicts by the first (lowest-index) maximum of the
//! per-neuron linear scores.

use vstd::prelude::*;

use crate::ModelError;

verus! {

/// The largest supported input dimension. Scores of neurons up to this wide
/// provably fit in an `i128` numerator; the domain's dimension is 784.
pub const MAX_DIM: usize = 0x4000_0000;

/// The mathematical model of a neuron: unbounded integer numerators.
pub ghost struct NeuronModel {
    pub weights: Seq<int>,
    pub bias: int,
}

/// A linear discriminant for one class. `weights[j]` and `bias` are
/// fixed-point numerators over `255 * 255`; the represented real weight is
/// `weights[j] / (255 * 255)`.
pub struct Neuron {
    pub weights: Vec<i64>,
    pub bias: i64,
}

impl View for Neuron {
    type V = NeuronModel;

    open spec fn view(&self) -> NeuronModel {
        NeuronModel {
            weights: self.weights@.map_values(|w: i64| w as int),
            bias: self.bias as int,
        }
    }
}

/// The dot product of the first `k` weight numerators with the first `k`
/// feature numerators.
pub open spec fn dot_prefix(w: Seq<int>, x: Seq<u8>, k: int) -> int
    decreases k,
{
    if k <= 0 {
        0
    } else {
        dot_prefix(w, x, k - 1) + w[k - 1] * (x[k - 1] as int)
    }
}

/// The exact integer numerator, over `255 * 255 * 255`, of the real score
/// `bias + sum_j weights[j] * x[j]`: the bias numerator (over `255 * 255`)
/// contributes `255 * bias`, and each product of a weight numerator with a
/// feature numerator (over 255) contributes at the same scale.
pub open spec fn score(n: NeuronModel, x: Seq<u8>) -> int {
    255 * n.bias + dot_prefix(n.weights, x, n.weights.len() as int)
}

/// Every weight numerator drawn from an `i64` vector is bounded by the
/// `i64` range.
pub open spec fn weights_in_i64(w: Seq<int>) -> bool {
    forall|j: int| 0 <= j < w.len() ==> i64::MIN <= #[trigger] w[j] <= i64::MAX
}

/// A partial dot product of `i64`-ranged weights with byte features is
/// bounded by `k * 255 * 2^63`.
pub proof fn lemma_dot_prefix_bound(w: Seq<int>, x: Seq<u8>, k: int)
    requires
        0 <= k <= w.len(),
        k <= x.len(),
        weights_in_i64(w),
    ensures
        -k * 255 * 0x8000_0000_0000_0000 <= dot_prefix(w, x, k) <= k * 255
            * 0x8000_0000_0000_0000,
    decreases k,
{
    if k > 0 {
        lemma_dot_prefix_bound(w, x, k - 1);
        assert(-255 * 0x8000_0000_0000_0000 <= w[k - 1] * (x[k - 1] as int) <= 255
            * 0x8000_0000_0000_0000) by (nonlinear_arith)
            requires
                i64::MIN <= w[k - 1] <= i64::MAX,
                0 <= x[k - 1] as int <= 255,
        ;
        assert((k - 1) * 255 * 0x8000_0000_0000_0000 + 255 * 0x8000_0000_0000_0000 == k * 255
            * 0x8000_0000_0000_0000) by (nonlinear_arith);
    }
}

impl Neuron {
    /// Builds a neuron from the given weight numerators and bias numerator.
    pub fn new(weights: Vec<i64>, bias: i64) -> (r: Neuron)
        ensures
            r.weights == weights,
            r.bias == bias,
    {
        Neuron { weights, bias }
    }

    /// The neuron's input size: the length of its weight vector.
    pub open spec fn n(&self) -> int {
        self.weights@.len() as int
    }

    /// The exact numerator of the linear combination `bias + sum_j w[j] * x[j]`,
    /// over `255 * 255 * 255`. An input whose length differs from the weight
    /// vector's is rejected, never truncated.
    pub fn linear(&self, input: &Vec<u8>) -> (r: Result<i128, ModelError>)
        requires
            self.weights@.len() <= MAX_DIM,
        ensures
            input@.len() == self.n() ==> (r matches Ok(v) && v == score(self@, input@)),
            input@.len() != self.n() ==> r == Err::<i128, ModelError>(
                (ModelError::InvalidInputShape {
                    expected: self.weights.len(),
                    actual: input.len(),
                }),
            ),
    {
        if input.len() != self.weights.len() {
            return Err(ModelError::InvalidInputShape {
                expected: self.weights.len(),
                actual: input.len(),
            });
        }
        let ghost w: Seq<int> = self@.weights;
        let mut acc: i128 = 255 * (self.bias as i128);
        let mut j: usize = 0;
        while j < self.weights.len()
            invariant
                0 <= j <= self.weights.len(),
                self.weights@.len() <= MAX_DIM,
                input@.len() == self.weights@.len(),
                w == self@.weights,
                w.len() == self.weights@.len(),
                weights_in_i64(w),
                acc == 255 * (self.bias as int) + dot_prefix(w, input@, j as int),
            decreases self.weights.len() - j,
        {
            proof {
                lemma_dot_prefix_bound(w, input@, j as int + 1);
                assert(-255 * 0x8000_0000_0000_0000 <= w[j as int] * (input@[j as int] as int)
                    <= 255 * 0x8000_0000_0000_0000) by (nonlinear_arith)
                    requires
                        i64::MIN <= w[j as int] <= i64::MAX,
                        0 <= input@[j as int] as int <= 255,
                ;
                assert((j as int + 1) * 255 * 0x8000_0000_0000_0000 <= 0x4000_0001 * 255
                    * 0x8000_0000_0000_0000) by (nonlinear_arith)
                    requires
                        j as int + 1 <= 0x4000_0001,
                ;
            }
            acc = acc + (self.weights[j] as i128) * (input[j] as i128);
            j = j + 1;
        }
        Ok(acc)
    }
}

/// A multi-class perceptron: one neuron per class, the neuron's index being
/// the class label.
pub struct Perceptron {
    pub neurons: Vec<Neuron>,
}

impl View for Perceptron {
    type V = Seq<NeuronModel>;

    open spec fn view(&self) -> Seq<NeuronModel> {
        self.neurons@.map_values(|n: Neuron| n@)
    }
}

/// `idx` is the index `predict` must return on input `x`: its score is
/// maximal, and every earlier neuron scores strictly less, so among tied
/// maxima the lowest index wins.
pub open spec fn is_first_max(p: Seq<NeuronModel>, x: Seq<u8>, idx: int) -> bool {
    &&& 0 <= idx < p.len()
    &&& forall|i: int| 0 <= i < p.len() ==> score(#[trigger] p[i], x) <= score(p[idx], x)
    &&& forall|i: int| 0 <= i < idx ==> score(#[trigger] p[i], x) < score(p[idx], x)
}

/// The index of the first maximal score among the first `k` neurons.
pub open spec fn argmax_upto(p: Seq<NeuronModel>, x: Seq<u8>, k: int) -> int
    decreases k,
{
    if k <= 1 {
        0
    } else {
        let b = argmax_upto(p, x, k - 1);
        if score(p[k - 1], x) > score(p[b], x) {
            k - 1
        } else {
            b
        }
    }
}

/// The index of the first maximal score: what `predict` returns.
pub open spec fn spec_argmax(p: Seq<NeuronModel>, x: Seq<u8>) -> int {
    argmax_upto(p, x, p.len() as int)
}

pub proof fn lemma_argmax_upto_is_first_max(p: Seq<NeuronModel>, x: Seq<u8>, k: int)
    requires
        1 <= k <= p.len(),
    ensures
        0 <= argmax_upto(p, x, k) < k,
        forall|i: int| 0 <= i < k ==> score(#[trigger] p[i], x) <= score(p[argmax_upto(p, x, k)], x),
        forall|i: int|
            0 <= i < argmax_upto(p, x, k) ==> score(#[trigger] p[i], x) < score(
                p[argmax_upto(p, x, k)],
                x,
            ),
    decreases k,
{
    if k > 1 {
        lemma_argmax_upto_is_first_max(p, x, k - 1);
    }
}

/// The first maximum exists and is `spec_argmax` for a nonempty classifier.
pub proof fn lemma_argmax_is_first_max(p: Seq<NeuronModel>, x: Seq<u8>)
    requires
        p.len() >= 1,
    ensures
        is_first_max(p, x, spec_argmax(p, x)),
{
    lemma_argmax_upto_is_first_max(p, x, p.len() as int);
}

/// Prediction is a function of the model and the input alone: any two
/// indices satisfying the first-maximum contract coincide. With an
/// unchanged model, two predictions on the same input therefore return
/// the same label.
pub proof fn lemma_first_max_unique(p: Seq<NeuronModel>, x: Seq<u8>, i: int, j: int)
    requires
        is_first_max(p, x, i),
        is_first_max(p, x, j),
    ensures
        i == j,
{
    if i < j {
        assert(score(p[i], x) < score(p[j], x));
        assert(score(p[j], x) <= score(p[i], x));
    }
    if j < i {
        assert(score(p[j], x) < score(p[i], x));
        assert(score(p[i], x) <= score(p[j], x));
    }
}

/// The tie-break is deterministic and favours the lower index: a neuron
/// whose score equals the winner's never stands before the winner.
pub proof fn lemma_tie_break_lower_index(p: Seq<NeuronModel>, x: Seq<u8>, idx: int, i: int)
    requires
        is_first_max(p, x, idx),
        0 <= i < p.len(),
        score(p[i], x) == score(p[idx], x),
    ensures
        idx <= i,
{
}

impl Perceptron {
    /// The number of classes.
    pub open spec fn k(&self) -> int {
        self@.len() as int
    }

    /// The shared input size of all neurons.
    pub open spec fn n(&self) -> int {
        self@[0].weights.len() as int
    }

    /// Well-formedness: at least one class, all neurons of one equal size,
    /// and that size within the supported dimension.
    pub open spec fn wf(&self) -> bool {
        &&& self@.len() >= 1
        &&& self.n() <= MAX_DIM
        &&& forall|i: int| 0 <= i < self@.len() ==> (#[trigger] self@[i]).weights.len() == self.n()
    }

    /// Builds a classifier from one neuron per class. Rejects an empty
    /// neuron sequence, neurons of unequal sizes, and neurons wider than
    /// the supported dimension, with `InvalidModel`; otherwise the result
    /// holds exactly the given neurons and is well-formed.
    pub fn new(neurons: Vec<Neuron>) -> (r: Result<Perceptron, ModelError>)
        ensures
            match r {
                Ok(p) => {
                    &&& p.neurons == neurons
                    &&& p.wf()
                },
                Err(e) => {
                    &&& e == ModelError::InvalidModel
                    &&& (neurons@.len() == 0 || neurons@[0].weights@.len() > MAX_DIM
                        || exists|i: int|
                        0 <= i < neurons@.len() && (#[trigger] neurons@[i]).weights@.len()
                            != neurons@[0].weights@.len())
                },
            },
            (r matches Ok(p) && p.neurons == neurons) <==> (neurons@.len() >= 1
                && neurons@[0].weights@.len() <= MAX_DIM && forall|i: int|
                0 <= i < neurons@.len() ==> (#[trigger] neurons@[i]).weights@.len()
                    == neurons@[0].weights@.len()),
    {
        if neurons.len() == 0 {
            return Err(ModelError::InvalidModel);
        }
        let n: usize = neurons[0].weights.len();
        if n > MAX_DIM {
            return Err(ModelError::InvalidModel);
        }
        let mut i: usize = 1;
        while i < neurons.len()
            invariant
                1 <= i <= neurons@.len(),
                n == neurons@[0].weights@.len(),
                forall|q: int|
                    0 <= q < i ==> (#[trigger] neurons@[q]).weights@.len() == n,
            decreases neurons@.len() - i,
        {
            if neurons[i].weights.len() != n {
                return Err(ModelError::InvalidModel);
            }
            i = i + 1;
        }
        Ok(Perceptron { neurons })
    }

    /// Returns the label of the first neuron with maximal score on `input`:
    /// a class in `[0, k)`, with ties broken toward the lower index. An
    /// input of the wrong length is rejected with `InvalidInputShape`.
    pub fn predict(&self, input: &Vec<u8>) -> (r: Result<usize, ModelError>)
        requires
            self.wf(),
        ensures
            input@.len() == self.n() ==> (r matches Ok(idx) && is_first_max(
                self@,
                input@,
                idx as int,
            ) && idx as int == spec_argmax(self@, input@)),
            input@.len() != self.n() ==> r == Err::<usize, ModelError>(
                (ModelError::InvalidInputShape {
                    expected: self.n() as usize,
                    actual: input.len(),
                }),
            ),
    {
        let n: usize = self.neurons[0].weights.len();
        if input.len() != n {
            return Err(ModelError::InvalidInputShape { expected: n, actual: input.len() });
        }
        let mut best_index: usize = 0;
        let mut best_value: i128 = match self.neurons[0].linear(input) {
            Ok(v) => v,
            Err(_) => {
                proof {
                    assert(false);
                }
                0
            },
        };
        let mut i: usize = 1;
        while i < self.neurons.len()
            invariant
                self.wf(),
                input@.len() == self.n(),
                1 <= i <= self@.len(),
                0 <= best_index < i,
                best_value == score(self@[best_index as int], input@),
                best_index as int == argmax_upto(self@, input@, i as int),
            decreases self@.len() - i,
        {
            proof {
                assert(self@[i as int] == self.neurons@[i as int]@);
                assert(self@[i as int].weights.len() == self.n());
            }
            let output: i128 = match self.neurons[i].linear(input) {
                Ok(v) => v,
                Err(_) => {
                    proof {
                        assert(false);
                    }
                    0
                },
            };
            if output > best_value {
                best_value = output;
                best_index = i;
            }
            i = i + 1;
        }
        proof {
            lemma_argmax_is_first_max(self@, input@);
        }
        Ok(best_index)
    }
}

/// The number of classes of this domain: the digits 0 through 9.
pub const CLASS_COUNT: usize = 10;

/// The input size of this domain: 28 by 28 grayscale pixels.
pub const FEATURE_COUNT: usize = 784;

/// How a fresh classifier's numerators are initialized.
#[derive(Clone, Copy, Debug)]
pub enum InitStrategy {
    /// All weights and biases zero: the first epoch's tie-breaks are fully
    /// determined by neuron order.
    Zero,
    /// Small reproducible pseudo-random numerators drawn from a
    /// linear-congruential generator started at the given seed.
    SeededRandom(u32),
}

/// One step of the linear-congruential generator, on 32-bit state.
pub open spec fn lcg_next(s: int) -> int {
    (s * 1664525 + 1013904223) % 0x1_0000_0000
}

/// The generator state after `k` steps from seed `s0`.
pub open spec fn lcg_iter(s0: int, k: nat) -> int
    decreases k,
{
    if k == 0 {
        s0
    } else {
        lcg_next(lcg_iter(s0, (k - 1) as nat))
    }
}

/// Maps a generator state to a small centered numerator in `[-650, 650]`,
/// which stands for a real weight in about `[-0.01, 0.01]` at the weight
/// scale of `255 * 255`.
pub open spec fn centered(s: int) -> int {
    s % 1301 - 650
}

/// The seeded weight numerator of neuron `i`, feature `j`: neuron `i`
/// consumes draws `i * 785 + 1` through `i * 785 + 785`, its 784 weights
/// first and its bias last, as `init_model` draws them in order.
pub open spec fn seeded_weight(s0: int, i: int, j: int) -> int {
    centered(lcg_iter(s0, (i * 785 + j + 1) as nat))
}

/// The seeded bias numerator of neuron `i`.
pub open spec fn seeded_bias(s0: int, i: int) -> int {
    centered(lcg_iter(s0, (i * 785 + 785) as nat))
}

/// Advances the generator state once.
fn lcg_step(seed: u32) -> (r: u32)
    ensures
        r as int == lcg_next(seed as int),
{
    (((seed as u64) * 1664525 + 1013904223) % 0x1_0000_0000) as u32
}

/// Draws the next weight numerator and the advanced state.
fn draw_centered(seed: u32) -> (r: (u32, i64))
    ensures
        r.0 as int == lcg_next(seed as int),
        r.1 as int == centered(lcg_next(seed as int)),
{
    let next: u32 = lcg_step(seed);
    (next, (next % 1301) as i64 - 650)
}

/// Builds the domain's fresh classifier: `CLASS_COUNT` neurons of
/// `FEATURE_COUNT` weights each, with numerators all zero or drawn in
/// order from the seeded generator, by the chosen strategy.
pub fn init_model(strategy: InitStrategy) -> (r: Perceptron)
    ensures
        r.wf(),
        r.k() == CLASS_COUNT,
        r.n() == FEATURE_COUNT,
        strategy matches InitStrategy::Zero ==> forall|i: int, j: int|
            0 <= i < CLASS_COUNT && 0 <= j < FEATURE_COUNT ==> (#[trigger] r@[i].weights[j]) == 0,
        strategy matches InitStrategy::Zero ==> forall|i: int|
            0 <= i < CLASS_COUNT ==> (#[trigger] r@[i]).bias == 0,
        strategy matches InitStrategy::SeededRandom(s0) ==> forall|i: int, j: int|
            0 <= i < CLASS_COUNT && 0 <= j < FEATURE_COUNT ==> (#[trigger] r@[i].weights[j])
                == seeded_weight(s0 as int, i, j),
        strategy matches InitStrategy::SeededRandom(s0) ==> forall|i: int|
            0 <= i < CLASS_COUNT ==> (#[trigger] r@[i]).bias == seeded_bias(s0 as int, i),
{
    let mut neurons: Vec<Neuron> = Vec::new();
    match strategy {
        InitStrategy::Zero => {
            let mut i: usize = 0;
            while i < CLASS_COUNT
                invariant
                    0 <= i <= CLASS_COUNT,
                    neurons@.len() == i,
                    forall|q: int|
                        0 <= q < i ==> (#[trigger] neurons@[q])@.weights == Seq::new(
                            FEATURE_COUNT as nat,
                            |j: int| 0int,
                        ) && neurons@[q]@.bias == 0,
                decreases CLASS_COUNT - i,
            {
                let weights: Vec<i64> = vec![0i64; FEATURE_COUNT];
                proof {
                    assert(weights@.map_values(|w: i64| w as int) =~= Seq::new(
                        FEATURE_COUNT as nat,
                        |j: int| 0int,
                    ));
                }
                neurons.push(Neuron { weights, bias: 0 });
                i = i + 1;
            }
            let p = Perceptron { neurons };
            proof {
                assert forall|i: int| 0 <= i < CLASS_COUNT implies (#[trigger] p@[i]).weights.len()
                    == FEATURE_COUNT by {
                    assert(p@[i] == p.neurons@[i]@);
                }
            }
            p
        },
        InitStrategy::SeededRandom(s0) => {
            let mut seed: u32 = s0;
            let mut i: usize = 0;
            while i < CLASS_COUNT
                invariant
                    0 <= i <= CLASS_COUNT,
                    neurons@.len() == i,
                    seed as int == lcg_iter(s0 as int, (i * 785) as nat),
                    forall|q: int, j: int|
                        0 <= q < i && 0 <= j < FEATURE_COUNT ==> (#[trigger] neurons@[q]@.weights[j])
                            == seeded_weight(s0 as int, q, j),
                    forall|q: int|
                        0 <= q < i ==> (#[trigger] neurons@[q])@.weights.len() == FEATURE_COUNT
                            && neurons@[q]@.bias == seeded_bias(s0 as int, q),
                decreases CLASS_COUNT - i,
            {
                let mut weights: Vec<i64> = Vec::new();
                let mut j: usize = 0;
                while j < FEATURE_COUNT
                    invariant
                        0 <= j <= FEATURE_COUNT,
                        i < CLASS_COUNT,
                        weights@.len() == j,
                        seed as int == lcg_iter(s0 as int, (i * 785 + j) as nat),
                        forall|q: int|
                            0 <= q < j ==> #[trigger] weights@[q] as int == seeded_weight(
                                s0 as int,
                                i as int,
                                q,
                            ),
                    decreases FEATURE_COUNT - j,
                {
                    let drawn = draw_centered(seed);
                    seed = drawn.0;
                    weights.push(drawn.1);
                    j = j + 1;
                }
                let drawn = draw_centered(seed);
                seed = drawn.0;
                let bias: i64 = drawn.1;
                neurons.push(Neuron { weights, bias });
                proof {
                    assert((i * 785 + 784 + 1) as nat == ((i + 1) * 785) as nat);
                    assert((i * 785 + 785) as nat == ((i + 1) * 785) as nat);
                }
                i = i + 1;
            }
            let p = Perceptron { neurons };
            proof {
                assert forall|i: int| 0 <= i < CLASS_COUNT implies (#[trigger] p@[i]).weights.len()
                    == FEATURE_COUNT by {
                    assert(p@[i] == p.neurons@[i]@);
                }
                assert forall|i: int, j: int|
                    0 <= i < CLASS_COUNT && 0 <= j < FEATURE_COUNT implies (#[trigger] p@[i].weights[j])
                    == seeded_weight(s0 as int, i, j) by {
                    assert(p@[i] == p.neurons@[i]@);
                }
                assert forall|i: int| 0 <= i < CLASS_COUNT implies (#[trigger] p@[i]).bias
                    == seeded_bias(s0 as int, i) by {
                    assert(p@[i] == p.neurons@[i]@);
                }
            }
            p
        },
    }
}

} // verus!
