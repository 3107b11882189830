//! Frame-level behaviour of the codec: round trips, the delimiter
//! discipline, rejection of malformed payloads, and partial input.

use echoframe::CodecError;
use echoframe::Message;
use echoframe::MessageCodec;

fn msg(id: u32, body: &str) -> Message {
    Message { id, body: String::from(body) }
}

#[test]
fn round_trip_single_frame() {
    let codec = MessageCodec;
    let mut buf: Vec<u8> = Vec::new();
    let clean = codec.encode(&msg(7, "hi"), &mut buf).unwrap();
    assert!(clean);
    let decoded = codec.decode(&mut buf).unwrap().unwrap();
    assert_eq!(decoded.id, 7);
    assert_eq!(decoded.body, "hi");
    assert!(buf.is_empty());
    assert!(matches!(codec.decode(&mut buf), Ok(None)));
}

#[test]
fn round_trip_zero_id_empty_body() {
    let codec = MessageCodec;
    let mut buf: Vec<u8> = Vec::new();
    assert!(codec.encode(&msg(0, ""), &mut buf).unwrap());
    let decoded = codec.decode(&mut buf).unwrap().unwrap();
    assert_eq!(decoded.id, 0);
    assert_eq!(decoded.body, "");
    assert!(buf.is_empty());
}

#[test]
fn encoding_is_the_expected_record_form() {
    // A two-element record: fixarray(2), positive fixint 7, fixstr "hi",
    // then the frame delimiter.
    let mut buf: Vec<u8> = Vec::new();
    let clean = echoframe::encode_frame(&msg(7, "hi"), &mut buf).unwrap();
    assert!(clean);
    assert_eq!(buf, vec![0x92, 0x07, 0xA2, 0x68, 0x69, 0x0A]);
}

#[test]
fn one_delimiter_per_clean_frame() {
    let mut buf: Vec<u8> = Vec::new();
    let clean = echoframe::encode_frame(&msg(123456, "abc"), &mut buf).unwrap();
    assert!(clean);
    assert_eq!(buf.iter().filter(|&&b| b == 0x0A).count(), 1);
    assert_eq!(*buf.last().unwrap(), 0x0A);
}

#[test]
fn delimiter_bearing_record_is_reported_unclean() {
    // An id of 10 encodes as the byte 0x0A itself, so this record breaks
    // the protocol precondition; the encoder still writes it but says so.
    let mut buf: Vec<u8> = Vec::new();
    let clean = echoframe::encode_frame(&msg(10, "x"), &mut buf).unwrap();
    assert!(!clean);
}

#[test]
fn round_trip_largest_id_and_long_body() {
    let codec = MessageCodec;
    let body: String = "z".repeat(100_000);
    let mut buf: Vec<u8> = Vec::new();
    let clean = codec.encode(&Message { id: u32::MAX, body: body.clone() }, &mut buf).unwrap();
    assert!(clean);
    let decoded = codec.decode(&mut buf).unwrap().unwrap();
    assert_eq!(decoded.id, u32::MAX);
    assert_eq!(decoded.body, body);
    assert!(buf.is_empty());
}

#[test]
fn malformed_payload_is_invalid_message() {
    let codec = MessageCodec;
    let mut buf: Vec<u8> = vec![0xFF, 0xFF, 0xFF, 0x0A];
    assert!(matches!(codec.decode(&mut buf), Err(CodecError::InvalidMessage)));
    assert!(buf.is_empty());
}

#[test]
fn missing_delimiter_means_need_more() {
    let codec = MessageCodec;
    let mut full: Vec<u8> = Vec::new();
    assert!(codec.encode(&msg(42, "x"), &mut full).unwrap());
    // Every byte but the final delimiter: no frame yet, nothing consumed.
    let mut partial: Vec<u8> = full[..full.len() - 1].to_vec();
    let before = partial.clone();
    assert!(matches!(codec.decode(&mut partial), Ok(None)));
    assert_eq!(partial, before);
}

#[test]
fn decoder_consumes_exactly_one_frame() {
    let codec = MessageCodec;
    let mut buf: Vec<u8> = Vec::new();
    assert!(codec.encode(&msg(1, "a"), &mut buf).unwrap());
    let trailing = vec![0x92u8, 0x02];
    buf.extend_from_slice(&trailing);
    let decoded = codec.decode(&mut buf).unwrap().unwrap();
    assert_eq!(decoded.id, 1);
    assert_eq!(buf, trailing);
}
