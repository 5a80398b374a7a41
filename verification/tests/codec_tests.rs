use mini_projects::codec::CheckOutcome;
use mini_projects::codec::DecodeOutcome;
use mini_projects::codec::FrameCodec;
use mini_projects::codec::check_frame;
use mini_projects::codec::decode_next;
use mini_projects::codec::encode_decimal;
use mini_projects::codec::encode_frame;
use mini_projects::frame::Frame;
use mini_projects::frame::TransportError;

fn bytes(s: &str) -> Vec<u8> {
    s.as_bytes().to_vec()
}

fn expect_complete(input: &str) -> (Frame, usize) {
    match decode_next(&bytes(input)) {
        DecodeOutcome::Complete(f, n) => (f, n),
        other => panic!("expected a complete frame for {:?}, got {:?}", input, other),
    }
}

fn expect_incomplete(input: &[u8]) {
    assert!(matches!(decode_next(&input.to_vec()), DecodeOutcome::Incomplete));
}

fn expect_malformed(input: &[u8]) {
    assert!(matches!(decode_next(&input.to_vec()), DecodeOutcome::Malformed));
}

#[test]
fn decodes_bulk_foo_consuming_nine_bytes() {
    let (f, n) = expect_complete("$3\r\nfoo\r\n");
    assert_eq!(f, Frame::Bulk(bytes("foo")));
    assert_eq!(n, 9);
}

#[test]
fn decodes_simple_ok_consuming_five_bytes() {
    let (f, n) = expect_complete("+OK\r\n");
    assert_eq!(f, Frame::Simple(bytes("OK")));
    assert_eq!(n, 5);
}

#[test]
fn decodes_null() {
    let (f, n) = expect_complete("$-1\r\n");
    assert_eq!(f, Frame::Null);
    assert_eq!(n, 5);
}

#[test]
fn decodes_error_and_integer() {
    let (f, n) = expect_complete("-ERR unknown\r\n");
    assert_eq!(f, Frame::Error(bytes("ERR unknown")));
    assert_eq!(n, 14);

    let (f, n) = expect_complete(":42\r\n");
    assert_eq!(f, Frame::Integer(42));
    assert_eq!(n, 5);
}

#[test]
fn decodes_integer_with_leading_zeros() {
    let (f, n) = expect_complete(":007\r\n");
    assert_eq!(f, Frame::Integer(7));
    assert_eq!(n, 6);
}

#[test]
fn decodes_largest_integer() {
    let (f, _) = expect_complete(":18446744073709551615\r\n");
    assert_eq!(f, Frame::Integer(u64::MAX));
}

#[test]
fn decodes_empty_bulk_and_empty_simple() {
    let (f, n) = expect_complete("$0\r\n\r\n");
    assert_eq!(f, Frame::Bulk(Vec::new()));
    assert_eq!(n, 6);

    let (f, n) = expect_complete("+\r\n");
    assert_eq!(f, Frame::Simple(Vec::new()));
    assert_eq!(n, 3);
}

#[test]
fn bulk_payload_may_contain_terminator_bytes() {
    let (f, n) = expect_complete("$4\r\na\r\nb\r\n");
    assert_eq!(f, Frame::Bulk(bytes("a\r\nb")));
    assert_eq!(n, 10);
}

#[test]
fn empty_buffer_is_incomplete_never_malformed() {
    expect_incomplete(b"");
    assert!(matches!(check_frame(&Vec::new()), CheckOutcome::Incomplete));
    let mut codec = FrameCodec::new();
    assert!(matches!(codec.parse_frame(), Ok(None)));
}

#[test]
fn partial_frames_are_incomplete() {
    expect_incomplete(b"+");
    expect_incomplete(b"+OK");
    expect_incomplete(b"+OK\r");
    expect_incomplete(b":12");
    expect_incomplete(b"$");
    expect_incomplete(b"$3");
    expect_incomplete(b"$3\r\nfo");
    expect_incomplete(b"$3\r\nfoo");
    expect_incomplete(b"$3\r\nfoo\r");
    expect_incomplete(b"$-1\r");
}

#[test]
fn malformed_inputs_are_rejected() {
    // the array wire tag: this core decodes scalar frames only
    expect_malformed(b"*1\r\n:1\r\n");
    // an unknown tag byte
    expect_malformed(b"?x\r\n");
    // a non-digit in an integer line
    expect_malformed(b":12a\r\n");
    // an empty integer line
    expect_malformed(b":\r\n");
    // an integer too large for 64 unsigned bits
    expect_malformed(b":18446744073709551616\r\n");
    // a negative integer line (the wire integer is unsigned)
    expect_malformed(b":-1\r\n");
    // a bulk length that is not `-1` yet starts with `-`
    expect_malformed(b"$-2\r\n");
    // a bulk frame whose payload is not closed by CR LF
    expect_malformed(b"$3\r\nfooXY");
    // a bulk payload closed by CR but not LF
    expect_malformed(b"$1\r\nA\rX");
    // a `$-` line that is not exactly `-1`
    expect_malformed(b"$-1x\r\n");
}

#[test]
fn bulk_length_limits() {
    // one past the largest length the prefix can carry: malformed
    expect_malformed(b"$18446744073709551616\r\n");
    // the largest representable length: a valid prefix, waiting for bytes
    expect_incomplete(b"$18446744073709551615\r\n");
}

#[test]
fn encode_scalars_byte_exact() {
    assert_eq!(encode_frame(&Frame::Simple(bytes("OK"))).unwrap(), bytes("+OK\r\n"));
    assert_eq!(encode_frame(&Frame::Error(bytes("oops"))).unwrap(), bytes("-oops\r\n"));
    assert_eq!(encode_frame(&Frame::Integer(0)).unwrap(), bytes(":0\r\n"));
    assert_eq!(encode_frame(&Frame::Integer(1234567890)).unwrap(), bytes(":1234567890\r\n"));
    assert_eq!(encode_frame(&Frame::Bulk(bytes("foo"))).unwrap(), bytes("$3\r\nfoo\r\n"));
    assert_eq!(encode_frame(&Frame::Bulk(Vec::new())).unwrap(), bytes("$0\r\n\r\n"));
    assert_eq!(encode_frame(&Frame::Null).unwrap(), bytes("$-1\r\n"));
}

#[test]
fn encode_array_fails_with_unimplemented() {
    let arr = Frame::Array(vec![Frame::Integer(1), Frame::Null]);
    assert_eq!(encode_frame(&arr), Err(TransportError::Unimplemented));
    let empty = Frame::Array(Vec::new());
    assert_eq!(encode_frame(&empty), Err(TransportError::Unimplemented));
}

#[test]
fn encode_decimal_exact() {
    assert_eq!(encode_decimal(0), bytes("0\r\n"));
    assert_eq!(encode_decimal(7), bytes("7\r\n"));
    assert_eq!(encode_decimal(12345), bytes("12345\r\n"));
    assert_eq!(encode_decimal(u64::MAX), bytes("18446744073709551615\r\n"));
}

fn round_trip(f: Frame) {
    let wire = encode_frame(&f).unwrap();
    let n_expected = wire.len();
    match decode_next(&wire) {
        DecodeOutcome::Complete(g, n) => {
            assert_eq!(g, f);
            assert_eq!(n, n_expected);
        },
        other => panic!("round trip failed for {:?}: {:?}", f, other),
    }
}

#[test]
fn round_trips_every_scalar_shape() {
    round_trip(Frame::Simple(bytes("hello world")));
    round_trip(Frame::Simple(Vec::new()));
    round_trip(Frame::Error(bytes("ERR wrong type")));
    round_trip(Frame::Integer(0));
    round_trip(Frame::Integer(9));
    round_trip(Frame::Integer(10));
    round_trip(Frame::Integer(u64::MAX));
    round_trip(Frame::Bulk(bytes("payload")));
    round_trip(Frame::Bulk(vec![0, 13, 10, 255, 13]));
    round_trip(Frame::Bulk(Vec::new()));
    round_trip(Frame::Null);
}

fn drain(codec: &mut FrameCodec) -> Vec<Frame> {
    let mut out = Vec::new();
    loop {
        match codec.parse_frame() {
            Ok(Some(f)) => out.push(f),
            Ok(None) => return out,
            Err(e) => panic!("unexpected decode error {:?}", e),
        }
    }
}

#[test]
fn chunking_does_not_change_the_decoded_frames() {
    let stream = bytes("+OK\r\n:42\r\n$3\r\nfoo\r\n$-1\r\n-err\r\n");
    let expected = vec![
        Frame::Simple(bytes("OK")),
        Frame::Integer(42),
        Frame::Bulk(bytes("foo")),
        Frame::Null,
        Frame::Error(bytes("err")),
    ];

    // one contiguous read
    let mut whole = FrameCodec::new();
    whole.feed(&stream);
    assert_eq!(drain(&mut whole), expected);
    assert_eq!(whole.buffered_len(), 0);

    // every possible chunk size, including one byte at a time
    for chunk in 1..stream.len() {
        let mut codec = FrameCodec::new();
        let mut got = Vec::new();
        for piece in stream.chunks(chunk) {
            codec.feed(piece);
            got.append(&mut drain(&mut codec));
        }
        assert_eq!(got, expected, "chunk size {}", chunk);
        assert_eq!(codec.buffered_len(), 0);
    }
}

#[test]
fn end_of_stream_clean_when_buffer_empty() {
    let codec = FrameCodec::new();
    assert!(matches!(codec.end_of_stream(), Ok(None)));

    let mut drained = FrameCodec::new();
    drained.feed(&bytes("+OK\r\n"));
    drain(&mut drained);
    assert!(matches!(drained.end_of_stream(), Ok(None)));
}

#[test]
fn end_of_stream_mid_frame_is_connection_reset() {
    let mut codec = FrameCodec::new();
    codec.feed(&bytes("$3\r\nfo"));
    assert!(matches!(codec.parse_frame(), Ok(None)));
    assert_eq!(codec.end_of_stream(), Err(TransportError::ConnectionReset));
}

#[test]
fn malformed_bytes_leave_the_buffer_unchanged() {
    let mut codec = FrameCodec::new();
    codec.feed(&bytes("*1\r\n"));
    assert_eq!(codec.parse_frame(), Err(TransportError::Malformed));
    assert_eq!(codec.buffered_len(), 4);
}

#[test]
fn parse_frame_consumes_exactly_one_frame() {
    let mut codec = FrameCodec::new();
    codec.feed(&bytes("+a\r\n+b\r\n"));
    assert_eq!(codec.parse_frame(), Ok(Some(Frame::Simple(bytes("a")))));
    assert_eq!(codec.buffered_len(), 4);
    assert_eq!(codec.parse_frame(), Ok(Some(Frame::Simple(bytes("b")))));
    assert_eq!(codec.buffered_len(), 0);
}

#[test]
fn check_pass_reports_frame_end_without_building() {
    assert_eq!(check_frame(&bytes("$3\r\nfoo\r\ntrailing")), CheckOutcome::FrameEnd(9));
    assert_eq!(check_frame(&bytes("+OK\r\n")), CheckOutcome::FrameEnd(5));
    assert_eq!(check_frame(&bytes(":1\r")), CheckOutcome::Incomplete);
    assert_eq!(check_frame(&bytes("*0\r\n")), CheckOutcome::Malformed);
}
