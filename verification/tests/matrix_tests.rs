use mnist_harness::batch::ScoreBuffer;
use mnist_harness::errors::TrainError;
use mnist_harness::matrix::{AccuracyRatio, ConfusionMatrix};

/// The quotient a caller derives from an accuracy reading: zero samples
/// read as zero, not as an error.
fn as_f64(r: AccuracyRatio) -> f64 {
    if r.total == 0 {
        0.0
    } else {
        r.correct as f64 / r.total as f64
    }
}

#[test]
fn two_of_three_correct() {
    let mut m = ConfusionMatrix::new(2);
    m.add_samples(&vec![0, 1, 1], &vec![0, 1, 0]).unwrap();
    let acc = m.accuracy();
    assert_eq!(acc.correct, 2);
    assert_eq!(acc.total, 3);
    assert!((as_f64(acc) - 2.0 / 3.0).abs() < 1e-12);
    // cells are indexed (true class, predicted class): the one miss is
    // true 0 predicted 1
    assert_eq!(m.count_at(0, 0), 1);
    assert_eq!(m.count_at(0, 1), 1);
    assert_eq!(m.count_at(1, 1), 1);
    assert_eq!(m.count_at(1, 0), 0);
}

#[test]
fn capacity_two_keeps_the_two_most_recent() {
    let mut m = ConfusionMatrix::new(2);
    m.set_capacity(Some(2));
    m.add_samples(&vec![0], &vec![0]).unwrap(); // correct
    m.add_samples(&vec![1], &vec![0]).unwrap(); // wrong
    m.add_samples(&vec![1], &vec![1]).unwrap(); // correct
    m.add_samples(&vec![0], &vec![1]).unwrap(); // wrong
    assert_eq!(m.samples().len(), 2);
    assert_eq!(m.samples(), &vec![true, false]);
    // the counts still cover all four samples
    assert_eq!(m.accuracy().total, 4);
    assert_eq!(m.accuracy().correct, 2);
}

#[test]
fn accuracy_is_idempotent() {
    let mut m = ConfusionMatrix::new(3);
    m.add_samples(&vec![2, 0], &vec![2, 1]).unwrap();
    let a1 = m.accuracy();
    let a2 = m.accuracy();
    assert_eq!(a1, a2);
    assert_eq!(as_f64(a1).to_bits(), as_f64(a2).to_bits());
}

#[test]
fn fresh_matrix_reads_zero_accuracy() {
    let m = ConfusionMatrix::new(10);
    let acc = m.accuracy();
    assert_eq!(acc.correct, 0);
    assert_eq!(acc.total, 0);
    assert_eq!(as_f64(acc), 0.0);
    assert!(m.samples().is_empty());
}

#[test]
fn mismatched_lengths_are_rejected() {
    let mut m = ConfusionMatrix::new(2);
    match m.add_samples(&vec![0], &vec![0, 1]) {
        Err(TrainError::LengthMismatch { predictions, labels }) => {
            assert_eq!(predictions, 1);
            assert_eq!(labels, 2);
        },
        other => panic!("expected LengthMismatch, got {:?}", other),
    }
    // the rejected call changed nothing
    assert_eq!(m.accuracy().total, 0);
    assert!(m.samples().is_empty());
}

#[test]
fn predictions_take_the_first_maximum() {
    let m = ConfusionMatrix::new(3);
    let mut out = ScoreBuffer::new(3, 3);
    // row 0: clear winner at class 2
    out.set_score(0, 0, -5);
    out.set_score(0, 1, 3);
    out.set_score(0, 2, 9);
    // row 1: tie between classes 0 and 2 resolves to class 0
    out.set_score(1, 0, 4);
    out.set_score(1, 1, 1);
    out.set_score(1, 2, 4);
    // row 2: all equal resolves to class 0
    let preds = m.predictions_from(&out);
    assert_eq!(preds, vec![2, 0, 0]);
}

#[test]
fn shrinking_capacity_evicts_oldest() {
    let mut m = ConfusionMatrix::new(2);
    m.add_samples(&vec![0, 1, 1, 0], &vec![0, 0, 1, 1]).unwrap();
    assert_eq!(m.samples(), &vec![true, false, true, false]);
    m.set_capacity(Some(3));
    assert_eq!(m.samples(), &vec![false, true, false]);
    m.set_capacity(Some(0));
    assert!(m.samples().is_empty());
    // a zero bound keeps the history empty through further updates
    m.add_samples(&vec![1], &vec![1]).unwrap();
    assert!(m.samples().is_empty());
    assert_eq!(m.accuracy().total, 5);
}

#[test]
fn lifting_capacity_keeps_history_unbounded() {
    let mut m = ConfusionMatrix::new(2);
    m.set_capacity(Some(1));
    m.add_samples(&vec![0, 0], &vec![0, 1]).unwrap();
    assert_eq!(m.samples(), &vec![false]);
    m.set_capacity(None);
    m.add_samples(&vec![0, 0], &vec![0, 0]).unwrap();
    assert_eq!(m.samples(), &vec![false, true, true]);
}
