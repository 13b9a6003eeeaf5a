use redis_kv::decimal::{parse_decimal, push_decimal};
use redis_kv::resp::{
    find_crlf, parse_messages, parse_rdb, parse_single_message, DecodeError, RespType,
};

fn bulk(s: &str) -> RespType {
    RespType::BulkString(s.as_bytes().to_vec())
}

fn simple(s: &str) -> RespType {
    RespType::SimpleString(s.as_bytes().to_vec())
}

fn sample_frames() -> Vec<RespType> {
    vec![
        simple("OK"),
        bulk("hello"),
        bulk(""),
        RespType::BulkString(vec![0, 13, 10, 255, 36, 42]),
        RespType::NullBulkString,
        RespType::Array(vec![]),
        RespType::Array(vec![bulk("SET"), bulk("k"), bulk("v")]),
        RespType::Array(vec![
            RespType::Array(vec![simple("a"), RespType::NullBulkString]),
            bulk("0123456789ab"),
            RespType::Array(vec![]),
        ]),
        simple(""),
        simple("ends with a carriage return\r"),
    ]
}

#[test]
fn decimal_digits_of_numbers() {
    let mut out = b"n=".to_vec();
    push_decimal(&mut out, 0);
    assert_eq!(out, b"n=0".to_vec());
    let mut out = Vec::new();
    push_decimal(&mut out, 1234567890);
    assert_eq!(out, b"1234567890".to_vec());
    let mut out = Vec::new();
    push_decimal(&mut out, u64::MAX);
    assert_eq!(out, b"18446744073709551615".to_vec());
}

#[test]
fn decimal_fields_are_read() {
    assert_eq!(parse_decimal(b"0"), Some(0));
    assert_eq!(parse_decimal(b"007"), Some(7));
    assert_eq!(parse_decimal(b"100"), Some(100));
    assert_eq!(parse_decimal(b"18446744073709551615"), Some(u64::MAX));
}

#[test]
fn decimal_fields_are_refused() {
    assert_eq!(parse_decimal(b""), None);
    assert_eq!(parse_decimal(b"-1"), None);
    assert_eq!(parse_decimal(b"+1"), None);
    assert_eq!(parse_decimal(b"12a"), None);
    assert_eq!(parse_decimal(b" 12"), None);
    assert_eq!(parse_decimal(b"18446744073709551616"), None);
    assert_eq!(parse_decimal(b"99999999999999999999999"), None);
}

#[test]
fn serialize_simple_string() {
    assert_eq!(simple("PONG").serialize(), b"+PONG\r\n".to_vec());
}

#[test]
fn serialize_bulk_string_counts_bytes() {
    assert_eq!(bulk("myvalue").serialize(), b"$7\r\nmyvalue\r\n".to_vec());
    assert_eq!(bulk("").serialize(), b"$0\r\n\r\n".to_vec());
    let text = "h\u{e9}llo";
    assert_eq!(text.chars().count(), 5);
    assert_eq!(bulk(text).serialize(), b"$6\r\nh\xc3\xa9llo\r\n".to_vec());
}

#[test]
fn serialize_null_bulk_string() {
    assert_eq!(RespType::NullBulkString.serialize(), b"$-1\r\n".to_vec());
}

#[test]
fn serialize_array() {
    let frame = RespType::Array(vec![bulk("SET"), bulk("foo"), bulk("bar")]);
    assert_eq!(frame.serialize(), b"*3\r\n$3\r\nSET\r\n$3\r\nfoo\r\n$3\r\nbar\r\n".to_vec());
    assert_eq!(RespType::Array(vec![]).serialize(), b"*0\r\n".to_vec());
}

#[test]
fn serialize_raw_payload_has_no_terminator() {
    let frame = RespType::Rdb(b"REDIS".to_vec());
    assert_eq!(frame.serialize(), b"$5\r\nREDIS".to_vec());
}

#[test]
fn write_to_appends() {
    let mut out = b"+A\r\n".to_vec();
    bulk("b").write_to(&mut out);
    assert_eq!(out, b"+A\r\n$1\r\nb\r\n".to_vec());
}

#[test]
fn first_line_terminator_is_found() {
    assert_eq!(find_crlf(b"ab\r\ncd\r\n"), Some(2));
    assert_eq!(find_crlf(b"\r\n"), Some(0));
    assert_eq!(find_crlf(b"a\rb\n\r"), None);
    assert_eq!(find_crlf(b""), None);
    assert_eq!(find_crlf(b"\r"), None);
}

#[test]
fn decode_undoes_encode() {
    for frame in sample_frames() {
        let bytes = frame.clone().serialize();
        let n = bytes.len();
        assert_eq!(parse_single_message(&bytes), Ok((frame.clone(), n)));
        let mut longer = bytes.clone();
        longer.extend_from_slice(b"+more\r\n");
        assert_eq!(parse_single_message(&longer), Ok((frame, n)));
    }
}

#[test]
fn decode_raw_payload() {
    let frame = RespType::Rdb(vec![1, 2, 3, 13, 10, 4]);
    let mut bytes = frame.clone().serialize();
    let n = bytes.len();
    bytes.extend_from_slice(b"*1\r\n");
    assert_eq!(parse_rdb(&bytes), Ok((frame, n)));
    assert_eq!(parse_rdb(b"$3\r\nab"), Err(DecodeError::NeedMore));
    assert_eq!(parse_rdb(b"$3"), Err(DecodeError::NeedMore));
    assert_eq!(parse_rdb(b""), Err(DecodeError::NeedMore));
    assert_eq!(parse_rdb(b"+OK\r\n"), Err(DecodeError::MalformedHeader));
    assert_eq!(parse_rdb(b"$x\r\n"), Err(DecodeError::MalformedHeader));
    assert_eq!(parse_rdb(b"$0\r\n"), Ok((RespType::Rdb(vec![]), 4)));
}

#[test]
fn decode_accepts_leading_zeros() {
    assert_eq!(parse_single_message(b"$03\r\nabc\r\n"), Ok((bulk("abc"), 10)));
}

#[test]
fn decode_needs_more() {
    let whole = b"*2\r\n$3\r\nGET\r\n$5\r\nmykey\r\n".to_vec();
    for cut in 0..whole.len() {
        assert_eq!(parse_single_message(&whole[..cut]), Err(DecodeError::NeedMore));
    }
    assert!(parse_single_message(&whole).is_ok());
}

#[test]
fn decode_malformed_header() {
    assert_eq!(parse_single_message(b"hello\r\n"), Err(DecodeError::MalformedHeader));
    assert_eq!(parse_single_message(b"-ERR\r\n"), Err(DecodeError::MalformedHeader));
    assert_eq!(parse_single_message(b":1\r\n"), Err(DecodeError::MalformedHeader));
    assert_eq!(parse_single_message(b"$abc\r\n"), Err(DecodeError::MalformedHeader));
    assert_eq!(parse_single_message(b"$-2\r\n"), Err(DecodeError::MalformedHeader));
    assert_eq!(parse_single_message(b"$\r\n"), Err(DecodeError::MalformedHeader));
    assert_eq!(parse_single_message(b"*x\r\n"), Err(DecodeError::MalformedHeader));
    assert_eq!(parse_single_message(b"*-1\r\n"), Err(DecodeError::MalformedHeader));
    assert_eq!(
        parse_single_message(b"$18446744073709551616\r\n"),
        Err(DecodeError::MalformedHeader)
    );
    assert_eq!(parse_single_message(b"*1\r\n!\r\n"), Err(DecodeError::MalformedHeader));
}

#[test]
fn decode_length_mismatch() {
    assert_eq!(parse_single_message(b"$3\r\nabcd\r\n"), Err(DecodeError::LengthMismatch));
    assert_eq!(parse_single_message(b"$3\r\nab\r\n\r\n"), Err(DecodeError::LengthMismatch));
    assert_eq!(
        parse_single_message(b"*1\r\n$1\r\nxy\r\n"),
        Err(DecodeError::LengthMismatch)
    );
}

#[test]
fn decode_bulk_string_with_binary_content() {
    let bytes = b"$5\r\n\x00\r\n\x00\xff\r\n".to_vec();
    assert_eq!(
        parse_single_message(&bytes),
        Ok((RespType::BulkString(vec![0, 13, 10, 0, 255]), 11))
    );
}

#[test]
fn decode_several_frames() {
    let mut stream = Vec::new();
    let frames = sample_frames();
    for frame in &frames {
        frame.clone().write_to(&mut stream);
    }
    let decoded = parse_messages(&stream);
    assert_eq!(decoded.frames, frames);
    assert_eq!(decoded.consumed, stream.len());
    assert_eq!(decoded.stop, DecodeError::NeedMore);
}

#[test]
fn decode_never_consumes_a_partial_frame() {
    let stream = b"+OK\r\n$3\r\nabc\r\n*2\r\n$1\r\na\r\n$1".to_vec();
    let decoded = parse_messages(&stream);
    assert_eq!(decoded.frames, vec![simple("OK"), bulk("abc")]);
    assert_eq!(decoded.consumed, 14);
    assert_eq!(decoded.stop, DecodeError::NeedMore);
}

#[test]
fn decode_stops_at_a_protocol_error() {
    let decoded = parse_messages(b"+OK\r\n?junk\r\n+LATER\r\n");
    assert_eq!(decoded.frames, vec![simple("OK")]);
    assert_eq!(decoded.consumed, 5);
    assert_eq!(decoded.stop, DecodeError::MalformedHeader);
    let decoded = parse_messages(b"$1\r\nabc");
    assert_eq!(decoded.frames, vec![]);
    assert_eq!(decoded.consumed, 0);
    assert_eq!(decoded.stop, DecodeError::LengthMismatch);
}

#[test]
fn decode_empty_buffer() {
    let decoded = parse_messages(b"");
    assert_eq!(decoded.frames, vec![]);
    assert_eq!(decoded.consumed, 0);
    assert_eq!(decoded.stop, DecodeError::NeedMore);
}

fn feed_in_chunks(stream: &[u8], cuts: &[usize]) -> (Vec<RespType>, Vec<u8>) {
    let mut frames = Vec::new();
    let mut pending: Vec<u8> = Vec::new();
    let mut from = 0;
    let mut ends: Vec<usize> = cuts.to_vec();
    ends.push(stream.len());
    for end in ends {
        pending.extend_from_slice(&stream[from..end]);
        from = end;
        let decoded = parse_messages(&pending);
        frames.extend(decoded.frames);
        pending = pending[decoded.consumed..].to_vec();
    }
    (frames, pending)
}

#[test]
fn frames_do_not_depend_on_how_the_stream_is_cut() {
    let mut stream = Vec::new();
    let frames = sample_frames();
    for frame in &frames {
        frame.clone().write_to(&mut stream);
    }
    let every_byte: Vec<usize> = (1..stream.len()).collect();
    let (got, pending) = feed_in_chunks(&stream, &every_byte);
    assert_eq!(got, frames);
    assert_eq!(pending, Vec::<u8>::new());
    for cut in 0..=stream.len() {
        let (got, pending) = feed_in_chunks(&stream, &[cut]);
        assert_eq!(got, frames);
        assert_eq!(pending, Vec::<u8>::new());
    }
    for first in (0..stream.len()).step_by(7) {
        for second in (first..stream.len()).step_by(11) {
            let (got, _) = feed_in_chunks(&stream, &[first, second]);
            assert_eq!(got, frames);
        }
    }
}

#[test]
fn cut_stream_with_an_error_gives_the_frames_before_it() {
    let stream = b"+A\r\n$1\r\nb\r\n!bad\r\n+C\r\n".to_vec();
    let whole = parse_messages(&stream);
    assert_eq!(whole.frames, vec![simple("A"), bulk("b")]);
    for cut in 0..=stream.len() {
        let (got, _) = feed_in_chunks(&stream, &[cut]);
        assert_eq!(got, vec![simple("A"), bulk("b")]);
    }
}

#[test]
fn copy_of_a_frame_is_the_frame() {
    for frame in sample_frames() {
        assert_eq!(frame.copy(), frame);
        assert_eq!(frame.clone(), frame);
    }
}
