use iso8583::{ConnState, ConnStep, MLIType};

const MAX_FRAME: usize = 65536;

fn frame_2e(payload: &[u8]) -> Vec<u8> {
    let mut out = MLIType::MLI2E.create(&payload.len()).unwrap();
    out.extend_from_slice(payload);
    out
}

#[test]
fn short_frame_arrives_in_pieces() {
    // the prefix arrives one byte at a time, then the payload in three chunks
    let payload = b"1100hello-iso".to_vec();
    let framed = frame_2e(&payload);
    let mut conn = ConnState::new();

    conn.feed(&framed[0..1].to_vec());
    assert!(matches!(conn.next_step(&MLIType::MLI2E, MAX_FRAME), ConnStep::NeedRead));
    conn.feed(&framed[1..2].to_vec());
    assert!(matches!(conn.next_step(&MLIType::MLI2E, MAX_FRAME), ConnStep::NeedRead));
    conn.feed(&framed[2..6].to_vec());
    assert!(matches!(conn.next_step(&MLIType::MLI2E, MAX_FRAME), ConnStep::NeedRead));
    conn.feed(&framed[6..10].to_vec());
    assert!(matches!(conn.next_step(&MLIType::MLI2E, MAX_FRAME), ConnStep::NeedRead));
    conn.feed(&framed[10..].to_vec());
    match conn.next_step(&MLIType::MLI2E, MAX_FRAME) {
        ConnStep::Frame(f) => assert_eq!(f, payload),
        _ => panic!("expected a complete frame"),
    }
    assert!(matches!(conn.next_step(&MLIType::MLI2E, MAX_FRAME), ConnStep::NeedRead));
}

#[test]
fn two_frames_in_one_read_dispatch_in_order() {
    let first = b"first-frame".to_vec();
    let second = b"second".to_vec();
    let mut wire = frame_2e(&first);
    wire.extend_from_slice(&frame_2e(&second));

    let mut conn = ConnState::new();
    conn.feed(&wire);
    match conn.next_step(&MLIType::MLI2E, MAX_FRAME) {
        ConnStep::Frame(f) => assert_eq!(f, first),
        _ => panic!("expected the first frame"),
    }
    match conn.next_step(&MLIType::MLI2E, MAX_FRAME) {
        ConnStep::Frame(f) => assert_eq!(f, second),
        _ => panic!("expected the second frame"),
    }
    assert!(matches!(conn.next_step(&MLIType::MLI2E, MAX_FRAME), ConnStep::NeedRead));
}

#[test]
fn oversize_frame_closes_the_connection() {
    let payload = vec![0x41u8; 600];
    let framed = frame_2e(&payload);
    let mut conn = ConnState::new();
    conn.feed(&framed);
    match conn.next_step(&MLIType::MLI2E, 512) {
        ConnStep::Close(e) => assert!(e.msg.contains("maximum")),
        _ => panic!("expected the connection to close"),
    }
}

#[test]
fn bad_inclusive_prefix_closes_the_connection() {
    // a 2-byte inclusive prefix announcing less than its own width
    let mut conn = ConnState::new();
    conn.feed(&vec![0u8, 1u8]);
    assert!(matches!(conn.next_step(&MLIType::MLI2I, MAX_FRAME), ConnStep::Close(_)));
}

#[test]
fn frame_with_4byte_inclusive_mli() {
    let payload = b"payload".to_vec();
    let mut wire = MLIType::MLI4I.create(&payload.len()).unwrap();
    wire.extend_from_slice(&payload);
    let mut conn = ConnState::new();
    conn.feed(&wire);
    match conn.next_step(&MLIType::MLI4I, MAX_FRAME) {
        ConnStep::Frame(f) => assert_eq!(f, payload),
        _ => panic!("expected a complete frame"),
    }
}
