use mnist_harness::batch::{BatchAssembler, SampleBuffer, ScoreBuffer};
use mnist_harness::errors::TrainError;
use mnist_harness::record::RecordDecoder;

fn ten_records() -> Vec<Vec<u8>> {
    // record i: label i, pixels [2*i, 2*i + 1]
    let mut rows: Vec<Vec<u8>> = Vec::new();
    for i in 0..10u8 {
        rows.push(format!("{},{},{}", i, 2 * i, 2 * i + 1).into_bytes());
    }
    rows
}

#[test]
fn fill_ten_records_in_batches_of_four() {
    let mut dec = RecordDecoder::new(ten_records(), 2);
    let assembler = BatchAssembler::new(4).unwrap();
    let mut buf = SampleBuffer::new(4, 2);

    let (n1, labels1) = assembler.fill(&mut buf, &mut dec).unwrap();
    assert_eq!(n1, 4);
    assert_eq!(labels1, vec![0u8, 1, 2, 3]);
    for r in 0..4usize {
        assert_eq!(buf.get(r, 0), 2 * r as u8);
        assert_eq!(buf.get(r, 1), 2 * r as u8 + 1);
    }

    let (n2, labels2) = assembler.fill(&mut buf, &mut dec).unwrap();
    assert_eq!(n2, 4);
    assert_eq!(labels2, vec![4u8, 5, 6, 7]);

    let (n3, labels3) = assembler.fill(&mut buf, &mut dec).unwrap();
    assert_eq!(n3, 2, "the third fill reports the short count");
    assert_eq!(labels3, vec![8u8, 9]);
    // rows 0..2 hold the last two records; rows 2..4 keep the prior batch
    assert_eq!(buf.get(0, 0), 16);
    assert_eq!(buf.get(1, 0), 18);
    assert_eq!(buf.get(2, 0), 12);
    assert_eq!(buf.get(3, 0), 14);

    // the source is exhausted: a further fill writes nothing
    let (n4, labels4) = assembler.fill(&mut buf, &mut dec).unwrap();
    assert_eq!(n4, 0);
    assert!(labels4.is_empty());
}

#[test]
fn fill_rejects_batch_larger_than_buffer() {
    let mut dec = RecordDecoder::new(ten_records(), 2);
    let assembler = BatchAssembler::new(4).unwrap();
    let mut buf = SampleBuffer::new(2, 2);
    match assembler.fill(&mut buf, &mut dec) {
        Err(TrainError::BufferOverflow { row, rows }) => {
            assert_eq!(row, 2);
            assert_eq!(rows, 2);
        },
        other => panic!("expected BufferOverflow, got {:?}", other),
    }
    // nothing was pulled
    assert_eq!(dec.position(), 0);
}

#[test]
fn fill_stops_on_malformed_row() {
    let rows = vec![b"1,0,0".to_vec(), b"2,x,0".to_vec(), b"3,0,0".to_vec()];
    let mut dec = RecordDecoder::new(rows, 2);
    let assembler = BatchAssembler::new(3).unwrap();
    let mut buf = SampleBuffer::new(3, 2);
    match assembler.fill(&mut buf, &mut dec) {
        Err(TrainError::Decode { row, .. }) => assert_eq!(row, 1),
        other => panic!("expected Decode, got {:?}", other),
    }
}

#[test]
fn zero_batch_size_is_a_configuration_error() {
    match BatchAssembler::new(0) {
        Err(TrainError::Configuration) => {},
        other => panic!("expected Configuration, got {:?}", other),
    }
}

#[test]
fn write_sample_checks_bounds() {
    let mut buf = SampleBuffer::new(2, 3);
    let sample = vec![1u8, 2, 3];
    buf.write_sample(1, &sample).unwrap();
    assert_eq!(buf.get(1, 0), 1);
    assert_eq!(buf.get(1, 2), 3);
    assert_eq!(buf.get(0, 0), 0, "other rows stay zero");
    match buf.write_sample(2, &sample) {
        Err(TrainError::BufferOverflow { row, rows }) => {
            assert_eq!(row, 2);
            assert_eq!(rows, 2);
        },
        other => panic!("expected BufferOverflow, got {:?}", other),
    }
}

#[test]
fn score_buffer_reads_back_writes() {
    let mut out = ScoreBuffer::new(2, 3);
    out.set_score(0, 1, 7);
    out.set_score(1, 2, -4);
    assert_eq!(out.get(0, 1), 7);
    assert_eq!(out.get(1, 2), -4);
    assert_eq!(out.get(0, 0), 0);
    assert_eq!(out.rows(), 2);
    assert_eq!(out.cols(), 3);
}
