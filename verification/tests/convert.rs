use segment_client::client::Client;
use segment_client::codec::{encode, parse};
use segment_client::command::{
    interpret_response, Bytes, Command, CommandError, FromSegmentFrame, Pairs, ToSegmentFrame,
};
use segment_client::connection::{ConnectionError, ConnectionOptions, FrameBuffer};
use segment_client::frame::Frame;

#[test]
fn to_frame_integers_widen() {
    assert_eq!(5u8.to_segment_frame(), Frame::Integer(5));
    assert_eq!((-5i8).to_segment_frame(), Frame::Integer(-5));
    assert_eq!(70000u32.to_segment_frame(), Frame::Integer(70000));
    assert_eq!(u64::MAX.to_segment_frame(), Frame::Integer(-1));
    assert_eq!(9usize.to_segment_frame(), Frame::Integer(9));
}

#[test]
fn to_frame_other_scalars() {
    assert_eq!(true.to_segment_frame(), Frame::Boolean(true));
    assert_eq!(
        String::from("hi").to_segment_frame(),
        Frame::String(b"hi".to_vec())
    );
    assert_eq!(
        Bytes(b"\x00\xff".to_vec()).to_segment_frame(),
        Frame::String(b"\x00\xff".to_vec())
    );
    assert_eq!(Some(3u8).to_segment_frame(), Frame::Integer(3));
    assert_eq!(None::<u8>.to_segment_frame(), Frame::Null);
}

#[test]
fn to_frame_pairs_flattens_in_order() {
    let m = Pairs(vec![(1u8, String::from("a")), (2u8, String::from("b"))]);
    assert_eq!(
        m.to_segment_frame(),
        Frame::Mapping(vec![
            Frame::Integer(1),
            Frame::String(b"a".to_vec()),
            Frame::Integer(2),
            Frame::String(b"b".to_vec()),
        ])
    );
}

#[test]
fn narrowing_truncates_like_native_casts() {
    assert_eq!(u8::from_segment_frame(&Frame::Integer(300)).unwrap(), 44u8);
    assert_eq!(u8::from_segment_frame(&Frame::Integer(-1)).unwrap(), 255u8);
    assert_eq!(i8::from_segment_frame(&Frame::Integer(130)).unwrap(), -126i8);
    assert_eq!(u16::from_segment_frame(&Frame::Integer(65536)).unwrap(), 0u16);
    assert_eq!(
        i64::from_segment_frame(&Frame::Integer(i64::MIN)).unwrap(),
        i64::MIN
    );
}

#[test]
fn incompatible_type_names_both_sides() {
    match bool::from_segment_frame(&Frame::String(b"x".to_vec())) {
        Err(CommandError::IncompatibleType(kind, wanted)) => {
            assert_eq!(kind, "string");
            assert_eq!(wanted, "bool");
        }
        other => panic!("unexpected {:?}", other),
    }
    match u8::from_segment_frame(&Frame::Double(b"1.5".to_vec())) {
        Err(CommandError::IncompatibleType(kind, wanted)) => {
            assert_eq!(kind, "double");
            assert_eq!(wanted, "u8");
        }
        other => panic!("unexpected {:?}", other),
    }
}

#[test]
fn string_from_frame_checks_utf8() {
    assert_eq!(
        String::from_segment_frame(&Frame::String(b"text".to_vec())).unwrap(),
        "text"
    );
    assert!(matches!(
        String::from_segment_frame(&Frame::String(b"\xff".to_vec())),
        Err(CommandError::Utf8Error)
    ));
}

#[test]
fn bytes_from_frame_is_binary_safe() {
    assert_eq!(
        Bytes::from_segment_frame(&Frame::String(b"\x00\xff".to_vec())).unwrap(),
        Bytes(b"\x00\xff".to_vec())
    );
}

#[test]
fn option_from_frame() {
    assert_eq!(Option::<u8>::from_segment_frame(&Frame::Null).unwrap(), None);
    assert_eq!(
        Option::<u8>::from_segment_frame(&Frame::Integer(3)).unwrap(),
        Some(3)
    );
}

#[test]
fn vec_from_frame_decodes_each_element() {
    let f = Frame::Array(vec![Frame::Integer(1), Frame::Integer(2)]);
    assert_eq!(Vec::<u8>::from_segment_frame(&f).unwrap(), vec![1u8, 2u8]);
    let bad = Frame::Array(vec![Frame::Integer(1), Frame::Boolean(true)]);
    assert!(matches!(
        Vec::<u8>::from_segment_frame(&bad),
        Err(CommandError::IncompatibleType("boolean", "u8"))
    ));
}

#[test]
fn pairs_from_frame_decodes_pairs() {
    let f = Frame::Mapping(vec![
        Frame::Integer(1),
        Frame::String(b"a".to_vec()),
        Frame::Integer(2),
        Frame::String(b"b".to_vec()),
    ]);
    let m = Pairs::<u8, String>::from_segment_frame(&f).unwrap();
    assert_eq!(m.0, vec![(1u8, String::from("a")), (2u8, String::from("b"))]);
}

#[test]
fn pairs_from_odd_map_is_a_decode_error() {
    let f = Frame::Mapping(vec![
        Frame::Integer(1),
        Frame::String(b"a".to_vec()),
        Frame::Integer(2),
    ]);
    assert!(matches!(
        Pairs::<u8, String>::from_segment_frame(&f),
        Err(CommandError::Decode)
    ));
    let empty = Frame::Mapping(vec![]);
    assert_eq!(
        Pairs::<u8, String>::from_segment_frame(&empty).unwrap().0,
        vec![]
    );
}

#[test]
fn command_builds_the_request_array() {
    let mut cmd = Command::new();
    cmd.arg(&String::from("set"));
    cmd.arg(&7u8);
    cmd.arg(&true);
    assert_eq!(cmd.len(), 3);
    let frame = cmd.into_frame();
    assert_eq!(
        frame,
        Frame::Array(vec![
            Frame::String(b"set".to_vec()),
            Frame::Integer(7),
            Frame::Boolean(true),
        ])
    );
    assert_eq!(encode(&frame), b"*3\r\n$3\r\nset\r\n%7\r\n^1\r\n".to_vec());
}

#[test]
fn server_error_surfaces_as_query_error() {
    let (response, _) = parse(b"!5\r\nboom!\r\n").expect("error frame parses");
    assert_eq!(response, Frame::Error(b"boom!".to_vec()));
    match interpret_response::<String>(&response) {
        Err(CommandError::QueryError(msg)) => assert_eq!(msg, "boom!"),
        other => panic!("unexpected {:?}", other),
    }
}

#[test]
fn ordinary_response_decodes_as_requested() {
    let (response, _) = parse(b"%300\r\n").unwrap();
    assert_eq!(interpret_response::<u8>(&response).unwrap(), 44u8);
    let (response, _) = parse(b"$2\r\nok\r\n").unwrap();
    assert_eq!(
        interpret_response::<String>(&response).unwrap(),
        "ok"
    );
}

#[test]
fn framer_assembles_chunked_input() {
    let frame = Frame::Array(vec![
        Frame::String(b"hello".to_vec()),
        Frame::Mapping(vec![Frame::Integer(1), Frame::Boolean(false)]),
    ]);
    let bytes = encode(&frame);
    // one byte at a time: every intermediate state is incomplete, the final
    // state yields the frame decoded from the unsplit bytes
    let mut buf = FrameBuffer::new();
    for (i, b) in bytes.iter().enumerate() {
        assert_eq!(buf.try_parse().unwrap(), None, "byte {}", i);
        buf.receive(&[*b]).unwrap();
    }
    assert_eq!(buf.try_parse().unwrap(), Some(frame));
    assert_eq!(buf.len(), 0);
}

#[test]
fn framer_holds_back_to_back_frames() {
    let mut bytes = encode(&Frame::Integer(1));
    bytes.extend_from_slice(&encode(&Frame::Null));
    let mut buf = FrameBuffer::new();
    buf.receive(&bytes).unwrap();
    assert_eq!(buf.try_parse().unwrap(), Some(Frame::Integer(1)));
    assert_eq!(buf.try_parse().unwrap(), Some(Frame::Null));
    assert_eq!(buf.try_parse().unwrap(), None);
}

#[test]
fn framer_reports_malformed_input() {
    let mut buf = FrameBuffer::new();
    buf.receive(b"?1\r\n").unwrap();
    assert!(matches!(buf.try_parse(), Err(ConnectionError::FrameError(_))));
}

#[test]
fn closed_stream_mid_frame_is_end_of_stream() {
    // the header declares ten payload bytes but only three arrived
    let mut buf = FrameBuffer::new();
    buf.receive(b"$10\r\nabc").unwrap();
    assert_eq!(buf.try_parse().unwrap(), None);
    // the transport then yields zero bytes: the peer closed the stream
    assert_eq!(buf.receive(&[]), Err(ConnectionError::Eof));
}

#[test]
fn options_and_client_hold_the_endpoint() {
    let options = ConnectionOptions::new("localhost", 4096);
    assert_eq!(options.host(), "localhost");
    assert_eq!(options.port(), 4096);
    let client = Client::new(ConnectionOptions::new("db.example", 9000));
    assert_eq!(client.options().host(), "db.example");
    assert_eq!(client.options().port(), 9000);
}
