//! Tests of dataset loading, training and evaluation.

use perceptron::ModelError;
use perceptron::perceptron::{FEATURE_COUNT, Neuron, Perceptron};
use perceptron::training::{
    Sample, accuracy_centipercent, evaluate, load_dataset, train_perceptron,
};

/// A well-formed dataset row: a label and `FEATURE_COUNT` pixel tokens.
fn row(label: usize, pixel: u8) -> String {
    let mut r = label.to_string();
    for _ in 0..FEATURE_COUNT {
        r.push(',');
        r.push_str(&pixel.to_string());
    }
    r
}

fn two_class_model() -> Perceptron {
    let n0 = Neuron::new(vec![1, 0], 0);
    let n1 = Neuron::new(vec![0, 1], 0);
    Perceptron::new(vec![n0, n1]).unwrap()
}

#[test]
fn load_round_trip() {
    // M well-formed rows yield exactly M samples; each label is the first
    // token, each feature numerator the raw pixel token (the feature's
    // value being that token divided by 255).
    let text = format!("{}\n{}\n{}\n", row(3, 7), row(0, 255), row(9, 0));
    let samples = load_dataset(&text.into_bytes()).unwrap();
    assert_eq!(samples.len(), 3);
    assert_eq!(samples[0].1, 3);
    assert_eq!(samples[1].1, 0);
    assert_eq!(samples[2].1, 9);
    assert!(samples[0].0.iter().all(|p| *p == 7));
    assert!(samples[1].0.iter().all(|p| *p == 255));
    assert!(samples[2].0.iter().all(|p| *p == 0));
    assert_eq!(samples[0].0.len(), FEATURE_COUNT);
}

#[test]
fn load_aborts_on_malformed_pixel() {
    // One non-numeric pixel token fails the whole load: no partial list.
    let mut bad = String::from("1");
    for j in 0..FEATURE_COUNT {
        bad.push(',');
        if j == 4 {
            bad.push_str("abc");
        } else {
            bad.push('0');
        }
    }
    let text = format!("{}\n{}\n", row(2, 1), bad);
    let r = load_dataset(&text.into_bytes());
    assert_eq!(r, Err(ModelError::DatasetParse { line: 1, token: 5 }));
}

#[test]
fn load_aborts_on_malformed_label() {
    let mut bad = String::from("x");
    for _ in 0..FEATURE_COUNT {
        bad.push_str(",0");
    }
    let r = load_dataset(&bad.into_bytes());
    assert_eq!(r, Err(ModelError::DatasetParse { line: 0, token: 0 }));
}

#[test]
fn load_aborts_on_out_of_range_pixel() {
    // 300 is numeric but no intensity in [0, 255].
    let mut bad = String::from("1,300");
    for _ in 1..FEATURE_COUNT {
        bad.push_str(",0");
    }
    let r = load_dataset(&bad.into_bytes());
    assert_eq!(r, Err(ModelError::DatasetParse { line: 0, token: 1 }));
}

#[test]
fn load_skips_short_rows() {
    let text = format!("1,2,3\n{}\n\n", row(5, 9));
    let samples = load_dataset(&text.into_bytes()).unwrap();
    assert_eq!(samples.len(), 1);
    assert_eq!(samples[0].1, 5);
}

#[test]
fn load_empty_source_is_empty_dataset() {
    let samples = load_dataset(&Vec::new()).unwrap();
    assert!(samples.is_empty());
}

#[test]
fn load_trims_whitespace_and_crlf() {
    let mut r = String::from(" 4 ");
    for _ in 0..FEATURE_COUNT {
        r.push_str(",\t8 ");
    }
    r.push_str("\r\n");
    let samples = load_dataset(&r.into_bytes()).unwrap();
    assert_eq!(samples.len(), 1);
    assert_eq!(samples[0].1, 4);
    assert!(samples[0].0.iter().all(|p| *p == 8));
}

#[test]
fn training_converges_on_separable_toy_data() {
    // A separable two-class, two-feature dataset: with enough epochs the
    // perceptron reaches 100% accuracy on it.
    let n0 = Neuron::new(vec![0, 0], 0);
    let n1 = Neuron::new(vec![0, 0], 0);
    let mut p = Perceptron::new(vec![n0, n1]).unwrap();
    let dataset: Vec<Sample> = vec![
        (vec![255, 10], 0),
        (vec![200, 0], 0),
        (vec![10, 255], 1),
        (vec![0, 180], 1),
    ];
    train_perceptron(&mut p, &dataset, 20, 255).unwrap();
    let rep = evaluate(&p, &dataset).unwrap();
    assert_eq!(rep.correct, rep.total);
    assert_eq!(accuracy_centipercent(rep.correct, rep.total), 10000);
}

#[test]
fn no_update_when_all_predictions_correct() {
    // Every sample already predicted correctly: one epoch leaves every
    // numerator bit-for-bit unchanged.
    let mut p = two_class_model();
    let dataset: Vec<Sample> = vec![(vec![10, 0], 0), (vec![0, 10], 1)];
    let before: Vec<(Vec<i64>, i64)> =
        p.neurons.iter().map(|n| (n.weights.clone(), n.bias)).collect();
    let counts = train_perceptron(&mut p, &dataset, 1, 7).unwrap();
    let after: Vec<(Vec<i64>, i64)> =
        p.neurons.iter().map(|n| (n.weights.clone(), n.bias)).collect();
    assert_eq!(before, after);
    assert_eq!(counts, vec![2]);
}

#[test]
fn mistake_applies_two_neuron_update() {
    // [5, 5] ties to class 0; labelled 1, so neuron 1 gains lr * x and
    // lr * 255 bias, neuron 0 loses the same, from one snapshot of x.
    let mut p = two_class_model();
    let dataset: Vec<Sample> = vec![(vec![5, 5], 1)];
    let counts = train_perceptron(&mut p, &dataset, 1, 2).unwrap();
    assert_eq!(counts, vec![0]);
    assert_eq!(p.neurons[0].weights, vec![1 - 2 * 5, 0 - 2 * 5]);
    assert_eq!(p.neurons[0].bias, -2 * 255);
    assert_eq!(p.neurons[1].weights, vec![0 + 2 * 5, 1 + 2 * 5]);
    assert_eq!(p.neurons[1].bias, 2 * 255);
}

#[test]
fn per_epoch_counts_use_predictions_before_updates() {
    // Epoch 1 mispredicts the sample (counted 0) and updates; epoch 2
    // predicts it correctly (counted 1).
    let mut p = two_class_model();
    let dataset: Vec<Sample> = vec![(vec![5, 5], 1)];
    let counts = train_perceptron(&mut p, &dataset, 2, 2).unwrap();
    assert_eq!(counts, vec![0, 1]);
}

#[test]
fn train_rejects_wrong_shape_and_leaves_model_unchanged() {
    let mut p = two_class_model();
    let dataset: Vec<Sample> = vec![(vec![1, 2], 0), (vec![1, 2, 3], 1)];
    let r = train_perceptron(&mut p, &dataset, 3, 1);
    assert_eq!(r, Err(ModelError::InvalidInputShape { expected: 2, actual: 3 }));
    assert_eq!(p.neurons[0].weights, vec![1, 0]);
    assert_eq!(p.neurons[1].weights, vec![0, 1]);
    assert_eq!(p.neurons[0].bias, 0);
    assert_eq!(p.neurons[1].bias, 0);
}

#[test]
fn evaluate_empty_dataset_is_an_error() {
    // Never 0/0: an empty dataset is the EmptyDataset error.
    let p = two_class_model();
    let r = evaluate(&p, &Vec::new());
    assert!(matches!(r, Err(ModelError::EmptyDataset)));
}

#[test]
fn evaluate_rejects_wrong_shape() {
    let p = two_class_model();
    let dataset: Vec<Sample> = vec![(vec![1], 0)];
    assert_eq!(
        evaluate(&p, &dataset),
        Err(ModelError::InvalidInputShape { expected: 2, actual: 1 })
    );
}

#[test]
fn evaluate_counts_overall_and_per_class() {
    let p = two_class_model();
    // Predictions: [9,1] -> 0 (correct), [1,9] -> 1 (correct),
    // [2,8] -> 1 but labelled 0 (wrong), [3,3] -> tie -> 0 (correct, label 0).
    let dataset: Vec<Sample> =
        vec![(vec![9, 1], 0), (vec![1, 9], 1), (vec![2, 8], 0), (vec![3, 3], 0)];
    let rep = evaluate(&p, &dataset).unwrap();
    assert_eq!(rep.total, 4);
    assert_eq!(rep.correct, 3);
    assert_eq!(rep.per_class_total, vec![3, 1]);
    assert_eq!(rep.per_class_correct, vec![2, 1]);
    assert_eq!(accuracy_centipercent(rep.correct, rep.total), 7500);
}

#[test]
fn accuracy_centipercent_rounds_down_exactly() {
    assert_eq!(accuracy_centipercent(1, 3), 3333);
    assert_eq!(accuracy_centipercent(2, 3), 6666);
    assert_eq!(accuracy_centipercent(0, 7), 0);
    assert_eq!(accuracy_centipercent(7, 7), 10000);
    assert_eq!(accuracy_centipercent(9934, 10000), 9934);
}
