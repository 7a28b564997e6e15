use mnist_harness::errors::DecodeError;
use mnist_harness::record::{decode_row, encode_record, Record, RecordDecoder};

#[test]
fn decode_valid_row() {
    let row: Vec<u8> = b"5,10,200".to_vec();
    let rec = decode_row(&row, 2).unwrap();
    assert_eq!(rec.label, 5);
    assert_eq!(rec.pixels, vec![10u8, 200u8]);
}

#[test]
fn decode_accepts_leading_zeros() {
    let row: Vec<u8> = b"007,001,000".to_vec();
    let rec = decode_row(&row, 2).unwrap();
    assert_eq!(rec.label, 7);
    assert_eq!(rec.pixels, vec![1u8, 0u8]);
}

#[test]
fn round_trip_recovers_record() {
    let rec = Record { label: 7, pixels: vec![0, 128, 255, 3] };
    let row = encode_record(&rec);
    assert_eq!(row, b"7,0,128,255,3".to_vec());
    let back = decode_row(&row, 4).unwrap();
    assert_eq!(back.label, 7);
    assert_eq!(back.pixels, vec![0u8, 128u8, 255u8, 3u8]);
}

#[test]
fn round_trip_zero_pixels() {
    let rec = Record { label: 0, pixels: Vec::new() };
    let row = encode_record(&rec);
    assert_eq!(row, b"0".to_vec());
    let back = decode_row(&row, 0).unwrap();
    assert_eq!(back.label, 0);
    assert!(back.pixels.is_empty());
}

#[test]
fn field_count_too_short() {
    let row: Vec<u8> = b"5,1".to_vec();
    match decode_row(&row, 2) {
        Err(DecodeError::FieldCount { found }) => assert_eq!(found, 2),
        other => panic!("expected FieldCount, got {:?}", other),
    }
}

#[test]
fn field_count_too_long() {
    let row: Vec<u8> = b"5,1,2,3".to_vec();
    match decode_row(&row, 2) {
        Err(DecodeError::FieldCount { found }) => assert_eq!(found, 4),
        other => panic!("expected FieldCount, got {:?}", other),
    }
}

#[test]
fn non_numeric_field() {
    let row: Vec<u8> = b"5,a,3".to_vec();
    match decode_row(&row, 2) {
        Err(DecodeError::BadField { field }) => assert_eq!(field, 1),
        other => panic!("expected BadField, got {:?}", other),
    }
}

#[test]
fn field_value_above_byte() {
    let row: Vec<u8> = b"5,300,3".to_vec();
    match decode_row(&row, 2) {
        Err(DecodeError::BadField { field }) => assert_eq!(field, 1),
        other => panic!("expected BadField, got {:?}", other),
    }
}

#[test]
fn empty_field_is_bad() {
    let row: Vec<u8> = b"5,,3".to_vec();
    match decode_row(&row, 2) {
        Err(DecodeError::BadField { field }) => assert_eq!(field, 1),
        other => panic!("expected BadField, got {:?}", other),
    }
}

#[test]
fn first_bad_field_is_reported() {
    let row: Vec<u8> = b"5,x,y".to_vec();
    match decode_row(&row, 2) {
        Err(DecodeError::BadField { field }) => assert_eq!(field, 1),
        other => panic!("expected BadField, got {:?}", other),
    }
}

#[test]
fn empty_row_is_one_empty_field() {
    let row: Vec<u8> = Vec::new();
    match decode_row(&row, 0) {
        Err(DecodeError::BadField { field }) => assert_eq!(field, 0),
        other => panic!("expected BadField, got {:?}", other),
    }
}

#[test]
fn decoder_walks_and_signals_exhaustion() {
    let rows = vec![b"1,10".to_vec(), b"2,20".to_vec()];
    let mut dec = RecordDecoder::new(rows, 1);
    let r1 = dec.next_record().unwrap().unwrap();
    assert_eq!(r1.label, 1);
    assert_eq!(r1.pixels, vec![10u8]);
    let r2 = dec.next_record().unwrap().unwrap();
    assert_eq!(r2.label, 2);
    assert!(dec.next_record().unwrap().is_none());
    assert!(dec.next_record().unwrap().is_none());
}

#[test]
fn decoder_restart_rewinds() {
    let rows = vec![b"9,0".to_vec()];
    let mut dec = RecordDecoder::new(rows, 1);
    assert_eq!(dec.next_record().unwrap().unwrap().label, 9);
    assert!(dec.next_record().unwrap().is_none());
    dec.restart();
    assert_eq!(dec.position(), 0);
    assert_eq!(dec.next_record().unwrap().unwrap().label, 9);
}

#[test]
fn decoder_stops_on_malformed_row() {
    let rows = vec![b"1,2".to_vec(), b"bad".to_vec(), b"3,4".to_vec()];
    let mut dec = RecordDecoder::new(rows, 1);
    assert!(dec.next_record().unwrap().is_some());
    assert!(dec.next_record().is_err());
    assert_eq!(dec.position(), 1);
    assert_eq!(dec.remaining(), 2);
}
