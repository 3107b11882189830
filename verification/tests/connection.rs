//! Connection-level behaviour: the driver's buffering under arbitrary
//! chunking, ordering, fatal frames, and end-of-stream handling.

use echoframe::encode_frame;
use echoframe::CodecError;
use echoframe::ConnDriver;
use echoframe::EchoService;
use echoframe::Message;

fn msg(id: u32, body: &str) -> Message {
    Message { id, body: String::from(body) }
}

fn frame(id: u32, body: &str) -> Vec<u8> {
    let mut buf: Vec<u8> = Vec::new();
    assert!(encode_frame(&msg(id, body), &mut buf).unwrap());
    buf
}

#[test]
fn single_frame_echoed_connection_stays_open() {
    let mut driver = ConnDriver::new();
    let svc = EchoService;
    let wire = frame(7, "hi");
    let mut out: Vec<u8> = Vec::new();
    assert!(driver.echo_chunk(&svc, &wire, &mut out).is_none());
    assert_eq!(out, wire);
    assert!(!driver.failed());
}

#[test]
fn three_frames_in_one_write_keep_order() {
    let mut wire: Vec<u8> = Vec::new();
    wire.extend_from_slice(&frame(1, "a"));
    wire.extend_from_slice(&frame(2, "bb"));
    wire.extend_from_slice(&frame(3, "ccc"));
    let mut driver = ConnDriver::new();
    let (msgs, err) = driver.on_data(&wire);
    assert!(err.is_none());
    let ids: Vec<u32> = msgs.iter().map(|m| m.id).collect();
    assert_eq!(ids, vec![1, 2, 3]);
    let bodies: Vec<&str> = msgs.iter().map(|m| m.body.as_str()).collect();
    assert_eq!(bodies, vec!["a", "bb", "ccc"]);

    // Echoing the same burst writes the same three frames back, in order.
    let mut driver = ConnDriver::new();
    let svc = EchoService;
    let mut out: Vec<u8> = Vec::new();
    assert!(driver.echo_chunk(&svc, &wire, &mut out).is_none());
    assert_eq!(out, wire);
}

#[test]
fn split_mid_payload_yields_exactly_one_frame() {
    let wire = frame(42, "x");
    let cut = 3;  // inside the encoded record, before the delimiter
    let mut driver = ConnDriver::new();
    let (msgs, err) = driver.on_data(&wire[..cut]);
    assert!(msgs.is_empty());
    assert!(err.is_none());
    let (msgs, err) = driver.on_data(&wire[cut..]);
    assert!(err.is_none());
    assert_eq!(msgs.len(), 1);
    assert_eq!(msgs[0].id, 42);
    assert_eq!(msgs[0].body, "x");
}

#[test]
fn byte_by_byte_delivery_matches_one_write() {
    let mut wire: Vec<u8> = Vec::new();
    wire.extend_from_slice(&frame(5, "five"));
    wire.extend_from_slice(&frame(6, ""));
    wire.extend_from_slice(&frame(7, "seven"));
    let mut driver = ConnDriver::new();
    let mut seen: Vec<(u32, String)> = Vec::new();
    for b in &wire {
        let (msgs, err) = driver.on_data(&[*b]);
        assert!(err.is_none());
        for m in msgs {
            seen.push((m.id, m.body));
        }
    }
    let want = vec![
        (5, String::from("five")),
        (6, String::from("")),
        (7, String::from("seven")),
    ];
    assert_eq!(seen, want);
}

#[test]
fn garbage_frame_closes_only_its_connection() {
    let mut bad = ConnDriver::new();
    let (msgs, err) = bad.on_data(&[0xFF, 0xFF, 0xFF, 0x0A]);
    assert!(msgs.is_empty());
    assert!(matches!(err, Some(CodecError::InvalidMessage)));
    assert!(bad.failed());

    // A well-behaved client connected in parallel is unaffected.
    let mut good = ConnDriver::new();
    let svc = EchoService;
    let wire = frame(9, "ok");
    let mut out: Vec<u8> = Vec::new();
    assert!(good.echo_chunk(&svc, &wire, &mut out).is_none());
    assert_eq!(out, wire);
}

#[test]
fn garbage_writes_no_response() {
    let mut driver = ConnDriver::new();
    let svc = EchoService;
    let mut out: Vec<u8> = Vec::new();
    let err = driver.echo_chunk(&svc, &[0xFF, 0xFF, 0xFF, 0x0A], &mut out);
    assert!(matches!(err, Some(CodecError::InvalidMessage)));
    assert!(out.is_empty());
    assert!(driver.failed());
}

#[test]
fn responses_before_a_bad_frame_are_still_written() {
    let good = frame(1, "a");
    let mut wire = good.clone();
    wire.extend_from_slice(&[0xFF, 0xFF, 0x0A]);
    let mut driver = ConnDriver::new();
    let svc = EchoService;
    let mut out: Vec<u8> = Vec::new();
    let err = driver.echo_chunk(&svc, &wire, &mut out);
    assert!(matches!(err, Some(CodecError::InvalidMessage)));
    assert_eq!(out, good);
}

#[test]
fn empty_record_is_echoed_as_itself() {
    let mut driver = ConnDriver::new();
    let svc = EchoService;
    let wire = frame(0, "");
    let mut out: Vec<u8> = Vec::new();
    assert!(driver.echo_chunk(&svc, &wire, &mut out).is_none());
    assert_eq!(out, wire);
    let mut reply = ConnDriver::new();
    let (msgs, err) = reply.on_data(&out);
    assert!(err.is_none());
    assert_eq!(msgs.len(), 1);
    assert_eq!(msgs[0].id, 0);
    assert_eq!(msgs[0].body, "");
}

#[test]
fn encode_all_then_read_back_round_trips() {
    let mut msgs = vec![msg(1, "x"), msg(2, "y")];
    let mut buf: Vec<u8> = Vec::new();
    let clean = echoframe::encode_all(&mut msgs, &mut buf).unwrap();
    assert!(clean);
    assert!(msgs.is_empty());
    let mut driver = ConnDriver::new();
    let (got, err) = driver.on_data(&buf);
    assert!(err.is_none());
    assert_eq!(got.len(), 2);
    assert_eq!((got[0].id, got[0].body.as_str()), (1, "x"));
    assert_eq!((got[1].id, got[1].body.as_str()), (2, "y"));
    assert!(driver.on_eof());
}

#[test]
fn silent_close_is_clean() {
    let driver = ConnDriver::new();
    assert!(driver.on_eof());
}

#[test]
fn close_with_unterminated_bytes_is_a_protocol_error() {
    let wire = frame(8, "tail");
    let mut driver = ConnDriver::new();
    let (msgs, err) = driver.on_data(&wire[..wire.len() - 1]);
    assert!(msgs.is_empty());
    assert!(err.is_none());
    assert!(!driver.on_eof());
}
