use resp_codec::{Config, ConnectionError, Frame, FrameError, FrameReader, Parse, ParseError, Select};

#[test]
fn empty_stream_ends_cleanly() {
    let reader = FrameReader::new();
    assert!(reader.is_empty());
    assert!(matches!(reader.end_of_stream(), Ok(None)));
}

#[test]
fn close_inside_a_frame_is_a_reset() {
    let mut reader = FrameReader::new();
    reader.receive(b"*2\r\n:1\r\n");
    assert!(matches!(reader.next_frame(), Ok(None)));
    assert_eq!(reader.pending(), b"*2\r\n:1\r\n");
    assert!(matches!(reader.end_of_stream(), Err(ConnectionError::ResetByPeer)));
}

#[test]
fn frames_come_out_one_at_a_time() {
    let mut reader = FrameReader::new();
    reader.receive(b"+OK\r\n:4");
    assert!(matches!(reader.next_frame(), Ok(Some(Frame::Simple(_)))));
    assert_eq!(reader.pending(), b":4");
    assert!(matches!(reader.next_frame(), Ok(None)));
    reader.receive(b"2\r\n");
    assert!(matches!(reader.next_frame(), Ok(Some(Frame::Integer(42)))));
    assert!(reader.is_empty());
    assert!(matches!(reader.end_of_stream(), Ok(None)));
}

#[test]
fn malformed_bytes_stay_put() {
    let mut reader = FrameReader::new();
    reader.receive(b"!oops\r\n");
    assert!(matches!(reader.next_frame(), Err(FrameError::BadFormat)));
    assert_eq!(reader.pending(), b"!oops\r\n");
}

fn command(parts: &[&[u8]]) -> Parse {
    let mut f = Frame::array();
    for p in parts {
        f.push_bulk(p.to_vec());
    }
    Parse::new(f).unwrap()
}

#[test]
fn cursor_reads_arguments() {
    let mut f = Frame::array();
    f.push_bulk(b"get".to_vec());
    f.push_int(-3);
    f.push_bulk(b"17".to_vec());
    f.push_bulk(vec![0xff, 0xfe]);
    let mut p = Parse::new(f).unwrap();
    assert_eq!(p.next_string().unwrap(), "get");
    assert_eq!(p.next_int().unwrap(), -3);
    assert_eq!(p.next_int().unwrap(), 17);
    assert!(!p.is_done());
    assert!(matches!(p.next_string(), Err(ParseError::Mismatch)));
    assert!(p.is_done());
    assert!(matches!(p.next_bytes(), Err(ParseError::EndOfStream)));
    assert!(matches!(Parse::new(Frame::Null), Err(ParseError::Mismatch)));
}

#[test]
fn cursor_mismatches() {
    let mut p = command(&[b"x1", b"raw"]);
    assert!(matches!(p.next_int(), Err(ParseError::Mismatch)));
    assert_eq!(p.next_bytes().unwrap(), b"raw".to_vec());
}

#[test]
fn config_reads_its_parameters() {
    let mut p = command(&[b"maxmemory", b"save"]);
    assert!(Config::parse_frames(&mut p).is_ok());
    assert!(p.is_done());
    let _ = Config::new();
    assert_eq!(Config::default().response().as_bytes(), b"+OK\r\n".to_vec());
}

#[test]
fn select_reads_an_index() {
    let mut p = command(&[b"3"]);
    let s = Select::parse_frames(&mut p).unwrap();
    assert_eq!(s.index(), 3);
    assert_eq!(s.into_frame().as_bytes(), b"*2\r\n$6\r\nSelect\r\n$1\r\n3\r\n".to_vec());
    let mut p = command(&[]);
    assert!(matches!(Select::parse_frames(&mut p), Err(ParseError::EndOfStream)));
    let mut p = command(&[b"-1"]);
    assert!(matches!(Select::parse_frames(&mut p), Err(ParseError::Mismatch)));
    assert_eq!(Select::new(12).index(), 12);
    assert_eq!(Select::new(0).response().as_bytes(), b"+OK\r\n".to_vec());
}

#[test]
fn close_inside_a_frame_after_several_chunks() {
    let mut reader = FrameReader::new();
    for chunk in [&b"*2"[..], b"\r\n", b":1\r", b"\n"] {
        reader.receive(chunk);
        assert!(matches!(reader.next_frame(), Ok(None)));
    }
    assert!(matches!(reader.end_of_stream(), Err(ConnectionError::ResetByPeer)));
}

#[test]
fn select_round_trips_every_index() {
    for n in [0u64, 7, i64::MAX as u64, i64::MAX as u64 + 1, u64::MAX] {
        let frame = Select::new(n).into_frame();
        let mut p = Parse::new(frame).unwrap();
        assert_eq!(p.next_string().unwrap(), "Select");
        let s = Select::parse_frames(&mut p).unwrap();
        assert_eq!(s.index(), n);
        assert!(p.is_done());
    }
}

#[test]
fn index_arguments() {
    let mut p = command(&[b"18446744073709551616", b"+3", b"-0", b"12"]);
    assert!(matches!(p.next_u64(), Err(ParseError::Mismatch)));
    assert!(matches!(p.next_u64(), Err(ParseError::Mismatch)));
    assert!(matches!(p.next_u64(), Err(ParseError::Mismatch)));
    assert_eq!(p.next_u64().unwrap(), 12);
    let mut f = Frame::array();
    f.push_int(5);
    f.push_int(-5);
    let mut p = Parse::new(f).unwrap();
    assert_eq!(p.next_u64().unwrap(), 5);
    assert!(matches!(p.next_u64(), Err(ParseError::Mismatch)));
}
