use resp_codec::{Frame, FrameArray, FrameError};
use resp_codec::frame::{get_bytes_from, get_bytes_until_crlf, peek_u8_at};

fn decode(bytes: &[u8]) -> Result<(Frame, usize), FrameError> {
    Frame::decode(bytes)
}

fn sample_frames() -> Vec<Frame> {
    let mut nested = FrameArray::default();
    nested.push_int(-7);
    nested.push_bulk(b"a\r\nb".to_vec());
    let mut outer = FrameArray::with_capacity(3);
    outer.push_bulk(b"foo".to_vec());
    outer.push_int(i64::MAX);
    let mut inner = vec![Frame::Null, Frame::Array(nested)];
    inner.push(Frame::Simple(b"x".to_vec()));
    let mut all = outer.into_vec();
    all.push(Frame::Array(FrameArray::from_vec(inner)));
    vec![
        Frame::Simple(b"OK".to_vec()),
        Frame::Simple(b"ends with cr\r".to_vec()),
        Frame::Error(b"ERR wrong".to_vec()),
        Frame::Integer(0),
        Frame::Integer(i64::MIN),
        Frame::Bulk(Vec::new()),
        Frame::Bulk(vec![0, 13, 10, 255]),
        Frame::Null,
        Frame::array(),
        Frame::Array(FrameArray::from_vec(all)),
    ]
}

#[test]
fn round_trip_of_every_variant() {
    for f in sample_frames() {
        let bytes = f.as_bytes();
        let (g, n) = decode(&bytes).expect("a wire form decodes");
        assert_eq!(n, bytes.len());
        assert_eq!(g.as_bytes(), bytes);
        assert_eq!(g.as_name(), f.as_name());
        assert_eq!(f.len(), bytes.len());
    }
}

#[test]
fn proper_prefixes_are_incomplete() {
    for f in sample_frames() {
        let bytes = f.as_bytes();
        for n in 0..bytes.len() {
            assert!(matches!(decode(&bytes[..n]), Err(FrameError::Incomplete)), "prefix {}", n);
        }
        assert!(decode(&bytes).is_ok());
    }
}

#[test]
fn null_is_not_empty_bulk() {
    let (f, n) = decode(b"$-1\r\n").unwrap();
    assert!(matches!(f, Frame::Null));
    assert_eq!(n, 5);
    let (f, n) = decode(b"$0\r\n\r\n").unwrap();
    match f {
        Frame::Bulk(b) => assert!(b.is_empty()),
        _ => panic!("expected an empty bulk frame"),
    }
    assert_eq!(n, 6);
}

#[test]
fn nested_array_decodes() {
    let src = b"*2\r\n$3\r\nfoo\r\n:1\r\n";
    let (f, n) = decode(src).unwrap();
    assert_eq!(n, 17);
    match f {
        Frame::Array(a) => {
            assert_eq!(a.len(), 2);
            let items = a.as_slice();
            match &items[0] {
                Frame::Bulk(b) => assert_eq!(b.as_slice(), b"foo"),
                _ => panic!("expected a bulk frame"),
            }
            assert!(matches!(items[1], Frame::Integer(1)));
        }
        _ => panic!("expected an array"),
    }
}

#[test]
fn bulk_without_terminator_is_bad_format() {
    assert!(matches!(decode(b"$3\r\nfooXX"), Err(FrameError::BadFormat)));
    assert!(matches!(decode(b"$3\r\nfoo\rX"), Err(FrameError::BadFormat)));
}

#[test]
fn integer_with_trailing_garbage_is_invalid() {
    assert!(matches!(decode(b":12x\r\n"), Err(FrameError::InvalidInteger)));
}

#[test]
fn integer_forms() {
    assert!(matches!(decode(b":+5\r\n"), Ok((Frame::Integer(5), 5))));
    assert!(matches!(decode(b":-0042\r\n"), Ok((Frame::Integer(-42), 8))));
    assert!(matches!(decode(b":-9223372036854775808\r\n"), Ok((Frame::Integer(i64::MIN), 23))));
    assert!(matches!(decode(b":9223372036854775808\r\n"), Err(FrameError::InvalidInteger)));
    assert!(matches!(decode(b":-\r\n"), Err(FrameError::InvalidInteger)));
    assert!(matches!(decode(b":\r\n"), Err(FrameError::InvalidInteger)));
    assert!(matches!(decode(b"$x\r\n"), Err(FrameError::InvalidInteger)));
}

#[test]
fn other_errors() {
    assert!(matches!(decode(b""), Err(FrameError::Incomplete)));
    assert!(matches!(decode(b"+OK"), Err(FrameError::Incomplete)));
    assert!(matches!(decode(b"?x\r\n"), Err(FrameError::BadFormat)));
    assert!(matches!(decode(b"*-1\r\n"), Err(FrameError::BadFormat)));
    assert!(matches!(decode(b"*1\r\n?\r\n"), Err(FrameError::BadFormat)));
    assert!(matches!(decode(b"$5\r\nab"), Err(FrameError::Incomplete)));
}

#[test]
fn empty_array_takes_its_header_only() {
    let (f, n) = decode(b"*0\r\n+rest\r\n").unwrap();
    assert_eq!(n, 4);
    match f {
        Frame::Array(a) => assert_eq!(a.len(), 0),
        _ => panic!("expected an array"),
    }
}

#[test]
fn simple_ends_at_first_terminator() {
    let (f, n) = decode(b"+a\rb\r\n\r\n").unwrap();
    assert_eq!(n, 6);
    match f {
        Frame::Simple(b) => assert_eq!(b.as_slice(), b"a\rb"),
        _ => panic!("expected a simple frame"),
    }
}

#[test]
fn parse_hands_back_the_rest() {
    let (f, rest) = Frame::parse(b"-ERR x\r\n:3\r\n").unwrap();
    match f {
        Frame::Error(b) => assert_eq!(b.as_slice(), b"ERR x"),
        _ => panic!("expected an error frame"),
    }
    assert_eq!(rest, b":3\r\n");
}

#[test]
fn exact_encodings() {
    assert_eq!(Frame::Integer(i64::MIN).as_bytes(), b":-9223372036854775808\r\n".to_vec());
    assert_eq!(Frame::Integer(120).as_bytes(), b":120\r\n".to_vec());
    assert_eq!(Frame::Null.as_bytes(), b"$-1\r\n".to_vec());
    assert_eq!(Frame::Bulk(b"hello".to_vec()).as_bytes(), b"$5\r\nhello\r\n".to_vec());
    let mut a = Frame::array();
    a.push_bulk(b"foo".to_vec());
    a.push_int(1);
    assert_eq!(a.as_bytes(), b"*2\r\n$3\r\nfoo\r\n:1\r\n".to_vec());
    assert_eq!(a.len(), 17);
    let mut out = b"prefix".to_vec();
    Frame::Simple(b"OK".to_vec()).encode_into(&mut out);
    assert_eq!(out, b"prefix+OK\r\n".to_vec());
}

#[test]
fn names_and_messages() {
    assert_eq!(Frame::Null.as_name(), "null");
    assert_eq!(Frame::Integer(1).as_name(), "integer");
    assert_eq!(Frame::array().as_name(), "array");
    assert_eq!(Frame::Bulk(Vec::new()).to_error(), "did not expect to get bulk");
    let mut s = Frame::Simple(b"x".to_vec());
    s.push_int(3);
    assert_eq!(s.as_bytes(), b"+x\r\n".to_vec());
}

#[test]
fn error_messages() {
    assert_eq!(FrameError::Incomplete.message(), "frame requires more bytes");
    assert_eq!(FrameError::InvalidInteger.message(), "frame contains invalid integer");
    assert_eq!(FrameError::BadFormat.message(), "frame contains bad format");
}

#[test]
fn byte_helpers() {
    assert_eq!(peek_u8_at(b"ab", 1).unwrap(), b'b');
    assert!(matches!(peek_u8_at(b"ab", 2), Err(FrameError::Incomplete)));
    assert_eq!(get_bytes_from(b"abc", 1).unwrap(), b"bc");
    assert!(matches!(get_bytes_from(b"abc", 3), Err(FrameError::Incomplete)));
    let (line, rest) = get_bytes_until_crlf(b"OK\r\n:1\r\n").unwrap();
    assert_eq!(line, b"OK");
    assert_eq!(rest, b":1\r\n");
    assert!(matches!(get_bytes_until_crlf(b"OK\r"), Err(FrameError::Incomplete)));
}

#[test]
fn parse_leaves_nothing_of_a_whole_frame() {
    for src in [&b"$-1\r\n"[..], b"$0\r\n\r\n", b"*2\r\n$3\r\nfoo\r\n:1\r\n"] {
        let (_, rest) = Frame::parse(src).unwrap();
        assert!(rest.is_empty());
    }
    let (f, rest) = Frame::parse(b"$-1\r\n").unwrap();
    assert!(matches!(f, Frame::Null));
    assert!(rest.is_empty());
}

#[test]
fn trailing_bytes_are_left_for_later() {
    for f in sample_frames() {
        let mut bytes = f.as_bytes();
        bytes.extend_from_slice(b"+next\r\n");
        let (g, rest) = Frame::parse(&bytes).unwrap();
        assert_eq!(g.as_bytes(), f.as_bytes());
        assert_eq!(rest, b"+next\r\n");
    }
}

#[test]
fn compare_with_bytes_and_text() {
    let f = Frame::Simple(b"OK".to_vec());
    assert!(f.eq_bytes(b"+OK\r\n"));
    assert!(!f.eq_bytes(b"+OK"));
    assert!(f.eq_str("+OK\r\n"));
    assert!(!f.eq_str("+NO\r\n"));
}

#[test]
fn clones_are_equal() {
    for f in sample_frames() {
        let g = f.clone();
        assert_eq!(g.as_bytes(), f.as_bytes());
    }
    let a = FrameArray::from_vec(vec![Frame::Integer(2)]);
    assert_eq!(a.clone().len(), 1);
}
