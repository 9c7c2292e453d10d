use food_cache::codec::{decode, encode};
use food_cache::snapshot::Record;

fn sample() -> Vec<Record> {
    vec![
        Record { id: 1, name: b"Apple".to_vec() },
        Record { id: 2, name: b"Banana".to_vec() },
    ]
}

#[test]
fn round_trip_two_records() {
    let snapshot = sample();
    let bytes = encode(&snapshot);
    let back = decode(&bytes).expect("an exact encoding must decode");
    assert_eq!(back, snapshot);
}

#[test]
fn round_trip_empty_snapshot() {
    let snapshot: Vec<Record> = Vec::new();
    let bytes = encode(&snapshot);
    let back = decode(&bytes).expect("an exact encoding must decode");
    assert_eq!(back, snapshot);
}

#[test]
fn round_trip_negative_id_and_empty_name() {
    let snapshot = vec![
        Record { id: -7, name: Vec::new() },
        Record { id: i32::MIN, name: b"x".to_vec() },
        Record { id: i32::MAX, name: b"edge".to_vec() },
    ];
    let bytes = encode(&snapshot);
    let back = decode(&bytes).expect("an exact encoding must decode");
    assert_eq!(back, snapshot);
}

#[test]
fn encode_exact_bytes() {
    let snapshot = vec![Record { id: 1, name: b"A".to_vec() }];
    let bytes = encode(&snapshot);
    let expected: Vec<u8> = vec![
        1, 0, 0, 0, 0, 0, 0, 0, // one record
        1, 0, 0, 0, // id 1
        1, 0, 0, 0, 0, 0, 0, 0, // one name byte
        65, // "A"
    ];
    assert_eq!(bytes, expected);
}

#[test]
fn decode_rejects_truncated_input() {
    let mut bytes = encode(&sample());
    bytes.pop();
    assert!(decode(&bytes).is_none());
}

#[test]
fn decode_rejects_trailing_bytes() {
    let mut bytes = encode(&sample());
    bytes.push(0);
    assert!(decode(&bytes).is_none());
}

#[test]
fn decode_rejects_short_input() {
    assert!(decode(&vec![1, 2, 3]).is_none());
    assert!(decode(&Vec::new()).is_none());
}

#[test]
fn decode_rejects_overlong_name_length() {
    // Claims one record whose name would run past the end of the input.
    let bytes: Vec<u8> = vec![
        1, 0, 0, 0, 0, 0, 0, 0, // one record
        1, 0, 0, 0, // id 1
        255, 0, 0, 0, 0, 0, 0, 0, // 255 name bytes claimed
        65,
    ];
    assert!(decode(&bytes).is_none());
}
