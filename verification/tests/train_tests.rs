use mnist_harness::batch::ScoreBuffer;
use mnist_harness::errors::{DecodeError, TrainError};
use mnist_harness::train::{TrainConfig, TrainingLoop};

fn five_rows() -> Vec<Vec<u8>> {
    // label, then three pixels
    vec![
        b"0,10,20,30".to_vec(),
        b"1,11,21,31".to_vec(),
        b"2,12,22,32".to_vec(),
        b"0,13,23,33".to_vec(),
        b"1,14,24,34".to_vec(),
    ]
}

fn cfg(batch_size: usize, num_classes: usize, feature_count: usize) -> TrainConfig {
    TrainConfig { batch_size, num_classes, feature_count }
}

#[test]
fn end_to_end_one_step_with_stub_scores() {
    let mut tl = TrainingLoop::new(five_rows(), cfg(5, 3, 3)).unwrap();
    assert_eq!(tl.total_steps(), 1);

    let n = tl.prepare_step().unwrap().expect("one batch is owed");
    assert_eq!(n, 5);
    assert!(tl.awaiting_trainer());
    assert_eq!(tl.pending_labels(), &vec![0u8, 1, 2, 0, 1]);
    // the input buffer holds the five pixel rows
    assert_eq!(tl.input().get(0, 0), 10);
    assert_eq!(tl.input().get(4, 2), 34);

    // a stub trainer output with hand-picked scores per sample row:
    // arg-max per row gives predictions [0, 1, 1, 0, 2]
    let scores: [[i64; 3]; 5] = [
        [9, 1, 1],   // -> 0, true 0: correct
        [0, 8, 2],   // -> 1, true 1: correct
        [1, 7, 3],   // -> 1, true 2: wrong
        [5, 5, 5],   // -> 0 (tie to lowest), true 0: correct
        [-3, -2, -1],// -> 2, true 1: wrong
    ];
    let mut out = ScoreBuffer::new(5, 3);
    for (r, row) in scores.iter().enumerate() {
        for (c, &v) in row.iter().enumerate() {
            out.set_score(r, c, v);
        }
    }

    let rep = tl.complete_step(&out).unwrap();
    assert_eq!(rep.step, 0);
    assert!(!rep.last_correct);
    assert_eq!(rep.accuracy.correct, 3);
    assert_eq!(rep.accuracy.total, 5);

    // counts[true][predicted] match the hand-computed arg-max values
    let m = tl.matrix();
    assert_eq!(m.count_at(0, 0), 2);
    assert_eq!(m.count_at(1, 1), 1);
    assert_eq!(m.count_at(2, 1), 1);
    assert_eq!(m.count_at(1, 2), 1);
    assert_eq!(m.count_at(0, 1), 0);
    assert_eq!(m.count_at(2, 2), 0);
    assert_eq!(m.samples(), &vec![true, true, false, true, false]);

    // all steps have run
    assert_eq!(tl.steps_done(), 1);
    assert!(tl.prepare_step().unwrap().is_none());
}

#[test]
fn total_steps_is_the_floor_and_the_tail_is_never_pulled() {
    // seven one-pixel rows, batch size four: one full step, tail unused
    let rows = vec![
        b"0,1".to_vec(),
        b"1,2".to_vec(),
        b"0,3".to_vec(),
        b"1,4".to_vec(),
        b"0,5".to_vec(),
        b"1,6".to_vec(),
        b"bad".to_vec(), // never reached, so never rejected
    ];
    let mut tl = TrainingLoop::new(rows, cfg(4, 2, 1)).unwrap();
    assert_eq!(tl.total_steps(), 1);
    let n = tl.prepare_step().unwrap().unwrap();
    assert_eq!(n, 4);
    let out = ScoreBuffer::new(4, 2);
    let rep = tl.complete_step(&out).unwrap();
    // zero scores arg-max to class 0 everywhere: labels [0,1,0,1]
    assert_eq!(rep.accuracy.correct, 2);
    assert_eq!(rep.accuracy.total, 4);
    assert!(tl.prepare_step().unwrap().is_none());
}

#[test]
fn wrong_output_shape_is_rejected_and_recoverable() {
    let mut tl = TrainingLoop::new(five_rows(), cfg(5, 3, 3)).unwrap();
    tl.prepare_step().unwrap().unwrap();
    let bad = ScoreBuffer::new(2, 3);
    match tl.complete_step(&bad) {
        Err(TrainError::ShapeMismatch { rows, cols }) => {
            assert_eq!(rows, 2);
            assert_eq!(cols, 3);
        },
        other => panic!("expected ShapeMismatch, got {:?}", other),
    }
    // the rejected output changed nothing: the right one still completes
    assert!(tl.awaiting_trainer());
    let good = ScoreBuffer::new(5, 3);
    let rep = tl.complete_step(&good).unwrap();
    assert_eq!(rep.accuracy.total, 5);
}

#[test]
fn invalid_configuration_is_rejected_before_the_loop() {
    match TrainingLoop::new(five_rows(), cfg(0, 3, 3)) {
        Err(e) => assert_eq!(e, TrainError::Configuration),
        Ok(_) => panic!("a zero batch size must be rejected"),
    }
    match TrainingLoop::new(five_rows(), cfg(5, 0, 3)) {
        Err(e) => assert_eq!(e, TrainError::Configuration),
        Ok(_) => panic!("a zero class count must be rejected"),
    }
}

#[test]
fn label_outside_class_range_aborts_prepare() {
    let rows = vec![b"0,1".to_vec(), b"5,2".to_vec()];
    let mut tl = TrainingLoop::new(rows, cfg(2, 2, 1)).unwrap();
    match tl.prepare_step() {
        Err(TrainError::Decode { row, error: DecodeError::LabelRange { label } }) => {
            assert_eq!(row, 1);
            assert_eq!(label, 5);
        },
        other => panic!("expected LabelRange, got {:?}", other),
    }
}

#[test]
fn malformed_row_aborts_prepare() {
    let rows = vec![b"0,1".to_vec(), b"1,x".to_vec()];
    let mut tl = TrainingLoop::new(rows, cfg(2, 2, 1)).unwrap();
    match tl.prepare_step() {
        Err(TrainError::Decode { row, error: DecodeError::BadField { field } }) => {
            assert_eq!(row, 1);
            assert_eq!(field, 1);
        },
        other => panic!("expected BadField, got {:?}", other),
    }
}

#[test]
fn history_capacity_bounds_reports() {
    let rows = vec![
        b"0,1".to_vec(),
        b"1,2".to_vec(),
        b"0,3".to_vec(),
        b"1,4".to_vec(),
    ];
    let mut tl = TrainingLoop::new(rows, cfg(2, 2, 1)).unwrap();
    tl.set_history_capacity(Some(2));
    for step in 0..2usize {
        let n = tl.prepare_step().unwrap().unwrap();
        assert_eq!(n, 2);
        let out = ScoreBuffer::new(2, 2);
        let rep = tl.complete_step(&out).unwrap();
        assert_eq!(rep.step, step);
        // zero scores predict class 0; the last sample of each batch has
        // label 1, so the last sample is always wrong
        assert!(!rep.last_correct);
    }
    assert_eq!(tl.matrix().samples().len(), 2);
    assert_eq!(tl.matrix().samples(), &vec![true, false]);
    assert_eq!(tl.matrix().accuracy().total, 4);
    assert_eq!(tl.matrix().accuracy().correct, 2);
}
