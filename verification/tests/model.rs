//! Tests of the neuron and classifier: scores, prediction, tie-breaks,
//! shape errors and initialization.

use perceptron::ModelError;
use perceptron::perceptron::{
    CLASS_COUNT, FEATURE_COUNT, InitStrategy, Neuron, Perceptron, init_model,
};

fn two_class_model() -> Perceptron {
    let n0 = Neuron::new(vec![1, 0], 0);
    let n1 = Neuron::new(vec![0, 1], 0);
    Perceptron::new(vec![n0, n1]).unwrap()
}

#[test]
fn linear_concrete_value() {
    // Weights [1, 0], bias 0: the score numerator of [3, 4] is 3.
    let n = Neuron::new(vec![1, 0], 0);
    assert_eq!(n.linear(&vec![3, 4]), Ok(3));
}

#[test]
fn linear_uses_bias() {
    // Score numerator: 255 * bias + dot(weights, input).
    let n = Neuron::new(vec![2, 5], 7);
    assert_eq!(n.linear(&vec![10, 1]), Ok(255 * 7 + 2 * 10 + 5 * 1));
}

#[test]
fn linear_rejects_wrong_length() {
    let n = Neuron::new(vec![1, 0], 0);
    assert_eq!(
        n.linear(&vec![1, 2, 3]),
        Err(ModelError::InvalidInputShape { expected: 2, actual: 3 })
    );
}

#[test]
fn predict_picks_maximum() {
    // N0 scores 3 on [3, 4]; N1 scores 4: class 1 wins.
    let p = two_class_model();
    assert_eq!(p.predict(&vec![3, 4]), Ok(1));
}

#[test]
fn predict_tie_goes_to_lower_index() {
    // Both neurons score 5 on [5, 5]: the lower index wins the tie.
    let p = two_class_model();
    assert_eq!(p.predict(&vec![5, 5]), Ok(0));
}

#[test]
fn predict_is_idempotent() {
    let p = two_class_model();
    let first = p.predict(&vec![17, 103]).unwrap();
    let second = p.predict(&vec![17, 103]).unwrap();
    assert_eq!(first, second);
}

#[test]
fn predict_label_in_range() {
    let p = init_model(InitStrategy::SeededRandom(42));
    for fill in [0u8, 1, 17, 255] {
        let input = vec![fill; FEATURE_COUNT];
        let label = p.predict(&input).unwrap();
        assert!(label < CLASS_COUNT);
    }
}

#[test]
fn predict_rejects_wrong_length() {
    let p = two_class_model();
    assert_eq!(
        p.predict(&vec![1, 2, 3]),
        Err(ModelError::InvalidInputShape { expected: 2, actual: 3 })
    );
}

#[test]
fn new_rejects_empty_model() {
    assert!(matches!(Perceptron::new(vec![]), Err(ModelError::InvalidModel)));
}

#[test]
fn new_rejects_mismatched_neurons() {
    let n0 = Neuron::new(vec![1, 0], 0);
    let n1 = Neuron::new(vec![0, 1, 2], 0);
    assert!(matches!(
        Perceptron::new(vec![n0, n1]),
        Err(ModelError::InvalidModel)
    ));
}

#[test]
fn init_model_zero_is_all_zero() {
    let p = init_model(InitStrategy::Zero);
    assert_eq!(p.neurons.len(), CLASS_COUNT);
    for n in &p.neurons {
        assert_eq!(n.weights.len(), FEATURE_COUNT);
        assert!(n.weights.iter().all(|w| *w == 0));
        assert_eq!(n.bias, 0);
    }
}

#[test]
fn init_model_seeded_is_reproducible() {
    let p1 = init_model(InitStrategy::SeededRandom(42));
    let p2 = init_model(InitStrategy::SeededRandom(42));
    assert_eq!(p1.neurons.len(), CLASS_COUNT);
    for (a, b) in p1.neurons.iter().zip(p2.neurons.iter()) {
        assert_eq!(a.weights, b.weights);
        assert_eq!(a.bias, b.bias);
    }
    // The generator's first two draws from seed 42, centered into [-650, 650].
    assert_eq!(p1.neurons[0].weights[0], -39);
    assert_eq!(p1.neurons[0].weights[1], 113);
}

#[test]
fn zero_model_predicts_class_zero() {
    // All scores are zero: every tie, so the lowest index wins everywhere.
    let p = init_model(InitStrategy::Zero);
    let input = vec![200u8; FEATURE_COUNT];
    assert_eq!(p.predict(&input), Ok(0));
}
