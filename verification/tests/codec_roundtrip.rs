use pea2pea::codec::drain_buffer;
use pea2pea::codec::packet_message;
use pea2pea::codec::read_message;
use pea2pea::codec::MAX_PAYLOAD_LEN;
use pea2pea::NodeError;

#[test]
fn packet_then_read_roundtrips() {
    let payload = b"hello there".to_vec();
    let frame = packet_message(&payload).unwrap();
    assert_eq!(frame.len(), payload.len() + 2);
    assert_eq!(frame[0], payload.len() as u8);
    assert_eq!(frame[1], 0);
    let parsed = read_message(&frame).unwrap().unwrap();
    assert_eq!(parsed, payload);
}

#[test]
fn packet_roundtrips_at_the_largest_size() {
    let payload = vec![0xabu8; MAX_PAYLOAD_LEN];
    let frame = packet_message(&payload).unwrap();
    assert_eq!(frame.len(), MAX_PAYLOAD_LEN + 2);
    assert_eq!(frame[0], 0xff);
    assert_eq!(frame[1], 0xff);
    let parsed = read_message(&frame).unwrap().unwrap();
    assert_eq!(parsed, payload);
}

#[test]
fn empty_payload_is_invalid_data() {
    let payload: Vec<u8> = Vec::new();
    assert_eq!(packet_message(&payload), Err(NodeError::InvalidData));
}

#[test]
fn oversized_payload_is_invalid_data() {
    let payload = vec![0u8; MAX_PAYLOAD_LEN + 1];
    assert_eq!(packet_message(&payload), Err(NodeError::InvalidData));
}

#[test]
fn partial_frames_read_as_none() {
    assert_eq!(read_message(&Vec::new()), Ok(None));
    assert_eq!(read_message(&vec![3u8]), Ok(None));
    assert_eq!(read_message(&vec![3u8, 0]), Ok(None));
    assert_eq!(read_message(&vec![3u8, 0, 1, 2]), Ok(None));
}

#[test]
fn zero_length_prefix_is_invalid_data() {
    assert_eq!(read_message(&vec![0u8, 0, 7, 7]), Err(NodeError::InvalidData));
}

#[test]
fn read_takes_only_the_first_frame() {
    let mut wire = packet_message(&b"ab".to_vec()).unwrap();
    wire.extend_from_slice(&packet_message(&b"cd".to_vec()).unwrap());
    let parsed = read_message(&wire).unwrap().unwrap();
    assert_eq!(parsed, b"ab".to_vec());
}

#[test]
fn drain_extracts_frames_in_wire_order() {
    let mut wire = packet_message(&b"one".to_vec()).unwrap();
    wire.extend_from_slice(&packet_message(&b"two".to_vec()).unwrap());
    wire.extend_from_slice(&packet_message(&b"three".to_vec()).unwrap());
    // a partial frame at the tail: only the length prefix of a 9-byte payload
    wire.extend_from_slice(&[9u8, 0]);
    let outcome = drain_buffer(&wire);
    assert!(!outcome.invalid);
    assert_eq!(outcome.msgs.len(), 3);
    assert_eq!(outcome.msgs[0], b"one".to_vec());
    assert_eq!(outcome.msgs[1], b"two".to_vec());
    assert_eq!(outcome.msgs[2], b"three".to_vec());
    assert_eq!(outcome.carry, vec![9u8, 0]);
}

#[test]
fn drain_stops_at_an_invalid_frame() {
    let mut wire = packet_message(&b"ok".to_vec()).unwrap();
    wire.extend_from_slice(&[0u8, 0]);
    wire.extend_from_slice(&packet_message(&b"lost".to_vec()).unwrap());
    let outcome = drain_buffer(&wire);
    assert!(outcome.invalid);
    assert_eq!(outcome.msgs.len(), 1);
    assert_eq!(outcome.msgs[0], b"ok".to_vec());
    assert!(outcome.carry.is_empty());
}

#[test]
fn drain_of_an_empty_buffer_is_empty() {
    let outcome = drain_buffer(&Vec::new());
    assert!(!outcome.invalid);
    assert!(outcome.msgs.is_empty());
    assert!(outcome.carry.is_empty());
}
