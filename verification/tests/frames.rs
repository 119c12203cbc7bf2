use shard_core::framing::{crc32, decode_frame, encode_frame};

#[test]
fn crc32_matches_the_reference_check_value() {
    let data: Vec<u8> = b"123456789".to_vec();
    assert_eq!(crc32(&data), 0xCBF43926);
}

#[test]
fn frame_round_trip() {
    let payload: Vec<u8> = vec![0, 1, 2, 250, 255, 42];
    let frame = encode_frame(77, &payload);
    assert_eq!(frame.len(), 16 + payload.len());
    let (op_num, decoded) = decode_frame(&frame).unwrap();
    assert_eq!(op_num, 77);
    assert_eq!(decoded, payload);
}

#[test]
fn frame_round_trip_empty_payload() {
    let payload: Vec<u8> = Vec::new();
    let frame = encode_frame(u64::MAX, &payload);
    let (op_num, decoded) = decode_frame(&frame).unwrap();
    assert_eq!(op_num, u64::MAX);
    assert!(decoded.is_empty());
}

#[test]
fn corrupted_payload_fails_the_checksum() {
    let payload: Vec<u8> = vec![9, 8, 7, 6];
    let mut frame = encode_frame(5, &payload);
    let k = 12; // first payload byte
    frame[k] ^= 0xff;
    assert!(decode_frame(&frame).is_none());
}

#[test]
fn truncated_frame_is_rejected() {
    let payload: Vec<u8> = vec![1, 2, 3];
    let mut frame = encode_frame(9, &payload);
    frame.pop();
    assert!(decode_frame(&frame).is_none());
}
