use segment_client::codec::{encode, get_line, parse};
use segment_client::frame::{Frame, ParseFrameError};

fn frame_sample() -> Frame {
    Frame::Array(vec![
        Frame::String(b"hello".to_vec()),
        Frame::Integer(-42),
        Frame::Boolean(true),
        Frame::Null,
        Frame::Mapping(vec![
            Frame::String(b"key".to_vec()),
            Frame::Integer(7),
        ]),
        Frame::Double(b"3.14".to_vec()),
        Frame::Error(b"oops".to_vec()),
    ])
}

#[test]
fn round_trip_scalars() {
    for f in [
        Frame::String(b"".to_vec()),
        Frame::String(b"binary\r\nsafe\x00".to_vec()),
        Frame::Integer(0),
        Frame::Integer(i64::MIN),
        Frame::Integer(i64::MAX),
        Frame::Boolean(true),
        Frame::Boolean(false),
        Frame::Null,
        Frame::Double(b"1.5".to_vec()),
        Frame::Error(b"boom".to_vec()),
    ] {
        let bytes = encode(&f);
        let (parsed, used) = parse(&bytes).expect("round trip parses");
        assert_eq!(parsed, f);
        assert_eq!(used, bytes.len());
    }
}

#[test]
fn round_trip_nested() {
    let f = frame_sample();
    let bytes = encode(&f);
    let (parsed, used) = parse(&bytes).expect("round trip parses");
    assert_eq!(parsed, f);
    assert_eq!(used, bytes.len());
}

#[test]
fn encode_array_exact_bytes() {
    let f = Frame::Array(vec![Frame::Integer(1), Frame::String(b"ab".to_vec())]);
    let bytes = encode(&f);
    assert_eq!(bytes, b"*2\r\n%1\r\n$2\r\nab\r\n".to_vec());
    let (parsed, used) = parse(&bytes).expect("parses");
    assert_eq!(parsed, f);
    assert_eq!(used, bytes.len());
}

#[test]
fn encode_scalar_exact_bytes() {
    assert_eq!(encode(&Frame::Integer(-7)), b"%-7\r\n".to_vec());
    assert_eq!(encode(&Frame::Boolean(true)), b"^1\r\n".to_vec());
    assert_eq!(encode(&Frame::Boolean(false)), b"^0\r\n".to_vec());
    assert_eq!(encode(&Frame::Null), b"-\r\n".to_vec());
    assert_eq!(encode(&Frame::Double(b"3.14".to_vec())), b".3.14\r\n".to_vec());
    assert_eq!(encode(&Frame::Error(b"bad".to_vec())), b"!3\r\nbad\r\n".to_vec());
    assert_eq!(
        encode(&Frame::Mapping(vec![Frame::Integer(1), Frame::Integer(2)])),
        b"#1\r\n%1\r\n%2\r\n".to_vec()
    );
}

#[test]
fn truncation_is_incomplete() {
    let f = frame_sample();
    let bytes = encode(&f);
    for cut in 0..bytes.len() {
        match parse(&bytes[..cut]) {
            Err(ParseFrameError::Incomplete) => {}
            other => panic!("prefix of {} bytes gave {:?}", cut, other),
        }
    }
}

#[test]
fn trailing_bytes_are_ignored() {
    let f = Frame::Integer(5);
    let mut bytes = encode(&f);
    let plain = bytes.clone();
    bytes.extend_from_slice(b"garbage after the frame");
    let (parsed, used) = parse(&bytes).expect("parses with trailing bytes");
    assert_eq!(parsed, f);
    assert_eq!(used, plain.len());
}

#[test]
fn parse_rejects_unknown_identifier() {
    assert!(matches!(parse(b"?1\r\n"), Err(ParseFrameError::InvalidFormat)));
}

#[test]
fn parse_rejects_empty_header_line() {
    assert!(matches!(parse(b"\r\nrest"), Err(ParseFrameError::InvalidFormat)));
}

#[test]
fn parse_boolean_rejects_other_content() {
    assert!(matches!(parse(b"^2\r\n"), Err(ParseFrameError::InvalidFormat)));
    assert!(matches!(parse(b"^\r\n"), Err(ParseFrameError::InvalidFormat)));
    assert!(matches!(parse(b"^10\r\n"), Err(ParseFrameError::InvalidFormat)));
}

#[test]
fn parse_null_rejects_content() {
    assert!(matches!(parse(b"-x\r\n"), Err(ParseFrameError::InvalidFormat)));
}

#[test]
fn parse_integer_header() {
    // the longest digit run decides; bytes after it are ignored
    let (f, _) = parse(b"%12junk\r\n").unwrap();
    assert_eq!(f, Frame::Integer(12));
    let (f, _) = parse(b"%+34\r\n").unwrap();
    assert_eq!(f, Frame::Integer(34));
    let (f, _) = parse(b"%007\r\n").unwrap();
    assert_eq!(f, Frame::Integer(7));
    // a sign alone reads as zero, as the wire peers read it
    let (f, _) = parse(b"%-\r\n").unwrap();
    assert_eq!(f, Frame::Integer(0));
    let (f, _) = parse(b"%-9223372036854775808\r\n").unwrap();
    assert_eq!(f, Frame::Integer(i64::MIN));
    // no digits at all, or overflow, is malformed
    assert!(matches!(parse(b"%x\r\n"), Err(ParseFrameError::InvalidFormat)));
    assert!(matches!(parse(b"%\r\n"), Err(ParseFrameError::InvalidFormat)));
    assert!(matches!(
        parse(b"%99999999999999999999\r\n"),
        Err(ParseFrameError::InvalidFormat)
    ));
    assert!(matches!(
        parse(b"%-99999999999999999999\r\n"),
        Err(ParseFrameError::InvalidFormat)
    ));
}

#[test]
fn parse_double_header() {
    for text in [
        "3.14", "-3.14", "+0.5", ".5", "5.", "1e5", "1.5e-3", "inf", "-inf", "Infinity", "NaN",
        "nan",
    ] {
        let mut bytes = b".".to_vec();
        bytes.extend_from_slice(text.as_bytes());
        bytes.extend_from_slice(b"\r\n");
        let (f, _) = parse(&bytes).unwrap_or_else(|e| panic!("{} gave {:?}", text, e));
        assert_eq!(f, Frame::Double(text.as_bytes().to_vec()));
        // everything the grammar accepts, standard float parsing accepts
        assert!(text.parse::<f64>().is_ok());
    }
    assert!(matches!(parse(b".x\r\n"), Err(ParseFrameError::ParseFloatError)));
    assert!(matches!(parse(b".\r\n"), Err(ParseFrameError::ParseFloatError)));
    assert!(matches!(parse(b".1.2.3\r\n"), Err(ParseFrameError::ParseFloatError)));
    assert!(matches!(parse(b".\xff\xfe\r\n"), Err(ParseFrameError::Utf8Error)));
}

#[test]
fn parse_string_length_prefix() {
    let (f, used) = parse(b"$5\r\nhello\r\n").unwrap();
    assert_eq!(f, Frame::String(b"hello".to_vec()));
    assert_eq!(used, 11);
    // binary payloads may hold the delimiter itself
    let (f, _) = parse(b"$4\r\na\r\nb\r\n").unwrap();
    assert_eq!(f, Frame::String(b"a\r\nb".to_vec()));
    // a negative-signed zero length reads as the empty string
    let (f, _) = parse(b"$+\r\n\r\n").unwrap();
    assert_eq!(f, Frame::String(b"".to_vec()));
    assert!(matches!(parse(b"$x\r\n"), Err(ParseFrameError::InvalidFormat)));
    assert!(matches!(parse(b"$5\r\nhel"), Err(ParseFrameError::Incomplete)));
}

#[test]
fn parse_map_counts_pairs() {
    let (f, used) = parse(b"#2\r\n%1\r\n%2\r\n%3\r\n%4\r\n").unwrap();
    assert_eq!(
        f,
        Frame::Mapping(vec![
            Frame::Integer(1),
            Frame::Integer(2),
            Frame::Integer(3),
            Frame::Integer(4),
        ])
    );
    assert_eq!(used, 20);
    if let Frame::Mapping(items) = f {
        assert_eq!(items.len() % 2, 0);
    } else {
        panic!("expected a map");
    }
    // a declared pair count with too few sub-frames buffered is incomplete
    assert!(matches!(
        parse(b"#2\r\n%1\r\n%2\r\n%3\r\n"),
        Err(ParseFrameError::Incomplete)
    ));
}

#[test]
fn get_line_finds_delimiter() {
    assert_eq!(get_line(b"%12\r\nrest"), Some(3));
    assert_eq!(get_line(b"\r\n"), Some(0));
    assert_eq!(get_line(b"%12"), None);
    assert_eq!(get_line(b"%12\r"), None);
    assert_eq!(get_line(b""), None);
}

#[test]
fn double_text_carries_float_values() {
    let (f, _) = parse(b".1.5\r\n").unwrap();
    assert_eq!(f, Frame::Double(b"1.5".to_vec()));
    if let Frame::Double(text) = f {
        let value: f64 = std::str::from_utf8(&text).unwrap().parse().unwrap();
        assert_eq!(value, 1.5f64);
        assert_eq!(value as f32, 1.5f32);
    }
}
