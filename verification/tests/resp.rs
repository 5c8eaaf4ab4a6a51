use redcon::resp::{read_head, Head};
use redcon::{Error, Type};

fn samples() -> Vec<(Vec<u8>, Type)> {
    vec![
        (
            b"+hello world\r\n".to_vec(),
            Type::SimpleString("hello world".to_string()),
        ),
        (
            b"-error message\r\n".to_vec(),
            Type::Error("error message".to_string()),
        ),
        (b":1000\r\n".to_vec(), Type::Integer(1000)),
        (
            b"$11\r\nhello world\r\n".to_vec(),
            Type::BulkString("hello world".to_string()),
        ),
        (b"$-1\r\n".to_vec(), Type::Null),
        (
            b"*2\r\n+hello world\r\n$11\r\nhello world\r\n".to_vec(),
            Type::Array(vec![
                Type::SimpleString("hello world".to_string()),
                Type::BulkString("hello world".to_string()),
            ]),
        ),
    ]
}

fn decode_all(bytes: &[u8]) -> (Result<Type, Error>, usize) {
    let mut src: &[u8] = bytes;
    let r = Type::read(&mut src);
    (r, src.len())
}

#[test]
fn read() {
    for (bytes, value) in samples() {
        assert_eq!(Type::read(&mut bytes.as_slice()), Ok(value));
    }
}

#[test]
fn write() {
    for (bytes, value) in samples() {
        let mut buf = vec![];
        value.write(&mut buf);
        assert_eq!(buf, bytes);
    }
}

#[test]
fn write_and_read() {
    let mut pipe: Vec<u8> = vec![];
    for (_, value) in samples() {
        value.clone().write(&mut pipe);
    }
    let mut src: &[u8] = pipe.as_slice();
    for (_, value) in samples() {
        assert_eq!(Type::read(&mut src), Ok(value));
    }
    assert!(src.is_empty());
    assert_eq!(Type::read(&mut src), Err(Error::UnexpectedEof));
}

#[test]
fn null_array() {
    assert_eq!(
        Type::read(&mut b"*-1\r\n".to_vec().as_slice()),
        Ok(Type::Null)
    );
}

#[test]
fn null_bulk() {
    assert_eq!(decode_all(b"$-1\r\n"), (Ok(Type::Null), 0));
    let mut buf = vec![];
    Type::Null.write(&mut buf);
    assert_eq!(buf, b"$-1\r\n".to_vec());
}

#[test]
fn write_appends_to_what_is_there() {
    let mut buf = b"xyz".to_vec();
    Type::Integer(-7).write(&mut buf);
    assert_eq!(buf, b"xyz:-7\r\n".to_vec());
}

#[test]
fn read_leaves_the_rest() {
    let mut src: &[u8] = b":1\r\n:2\r\ntail";
    assert_eq!(Type::read(&mut src), Ok(Type::Integer(1)));
    assert_eq!(src, b":2\r\ntail");
    assert_eq!(Type::read(&mut src), Ok(Type::Integer(2)));
    assert_eq!(src, b"tail");
    assert_eq!(Type::read(&mut src), Err(Error::ExpectedLine));
    assert_eq!(src, b"");
}

fn nested(depth: usize) -> Type {
    let mut v = Type::Array(vec![
        Type::SimpleString("leaf".to_string()),
        Type::Error("ERR no".to_string()),
        Type::Integer(i64::MIN),
        Type::BulkString("bulk\r\nwith lines\n".to_string()),
        Type::Array(vec![]),
    ]);
    for i in 0..depth {
        v = Type::Array(vec![Type::Integer(i as i64), v, Type::BulkString(String::new())]);
    }
    v
}

#[test]
fn round_trip_nested() {
    for depth in 0..7 {
        let value = nested(depth);
        let mut buf = vec![];
        value.clone().write(&mut buf);
        buf.extend_from_slice(b"+next\r\n");
        let mut src: &[u8] = buf.as_slice();
        assert_eq!(Type::read(&mut src), Ok(value));
        assert_eq!(src, b"+next\r\n");
    }
}

#[test]
fn round_trip_scalars() {
    let values = vec![
        Type::SimpleString(String::new()),
        Type::SimpleString("with \r return".to_string()),
        Type::SimpleString("h\u{e9}llo \u{4e16}\u{754c} \u{1f600}".to_string()),
        Type::Error("-1".to_string()),
        Type::Integer(0),
        Type::Integer(-1),
        Type::Integer(i64::MAX),
        Type::Integer(i64::MIN),
        Type::BulkString(String::new()),
        Type::BulkString("-1".to_string()),
        Type::BulkString("h\u{e9}llo\r\n\u{1f600}".to_string()),
        Type::Null,
        Type::Array(vec![]),
        Type::Array(vec![Type::Null, Type::Integer(42)]),
    ];
    for value in values {
        let mut buf = vec![];
        value.clone().write(&mut buf);
        assert_eq!(decode_all(&buf), (Ok(value), 0));
    }
}

#[test]
fn simple_string_with_line_feed_is_not_read_back() {
    let mut buf = vec![];
    Type::SimpleString("a\nb".to_string()).write(&mut buf);
    assert_eq!(buf, b"+a\nb\r\n".to_vec());
    let mut src: &[u8] = buf.as_slice();
    assert_eq!(Type::read(&mut src), Err(Error::ExpectedLine));
    assert_eq!(src, b"b\r\n");
}

#[test]
fn exact_encodings() {
    let mut buf = vec![];
    Type::BulkString("h\u{e9}".to_string()).write(&mut buf);
    assert_eq!(buf, b"$3\r\nh\xc3\xa9\r\n".to_vec());
    let mut buf = vec![];
    Type::Array(vec![Type::Null, Type::Integer(42)]).write(&mut buf);
    assert_eq!(buf, b"*2\r\n$-1\r\n:42\r\n".to_vec());
    let mut buf = vec![];
    Type::Array(vec![]).write(&mut buf);
    assert_eq!(buf, b"*0\r\n".to_vec());
    let mut buf = vec![];
    Type::Integer(i64::MIN).write(&mut buf);
    assert_eq!(buf, b":-9223372036854775808\r\n".to_vec());
}

#[test]
fn bulk_length_mismatch_is_a_malformed_line() {
    assert_eq!(
        decode_all(b"$5\r\nhello world\r\n"),
        (Err(Error::ExpectedLine), 6)
    );
    assert_eq!(decode_all(b"$5\r\nhell\r\n\r\n"), (Err(Error::ExpectedLine), 1));
    assert_eq!(decode_all(b"$5\r\nhello\n\r"), (Err(Error::ExpectedLine), 0));
    assert_eq!(decode_all(b"$0\r\nab"), (Err(Error::ExpectedLine), 0));
}

#[test]
fn bulk_payload_cut_short() {
    assert_eq!(decode_all(b"$20\r\nhello\r\n"), (Err(Error::Truncated), 0));
    assert_eq!(decode_all(b"$5\r\nhello\r"), (Err(Error::Truncated), 0));
    assert_eq!(decode_all(b"$0\r\n"), (Err(Error::Truncated), 0));
    assert_eq!(
        decode_all(b"$18446744073709551615\r\nab\r\n"),
        (Err(Error::Truncated), 0)
    );
}

#[test]
fn end_of_stream() {
    assert_eq!(decode_all(b""), (Err(Error::UnexpectedEof), 0));
    assert_eq!(decode_all(b"*2\r\n:1\r\n"), (Err(Error::UnexpectedEof), 0));
    assert!(Error::UnexpectedEof.is_eof());
    for other in [
        Error::ExpectedLine,
        Error::InvalidUtf8,
        Error::InvalidNumber,
        Error::UnknownType,
        Error::Truncated,
    ] {
        assert_ne!(other, Error::UnexpectedEof);
        assert!(!other.is_eof());
    }
}

#[test]
fn malformed_lines() {
    assert_eq!(decode_all(b"+OK"), (Err(Error::ExpectedLine), 0));
    assert_eq!(decode_all(b"+OK\n+more\r\n"), (Err(Error::ExpectedLine), 7));
    assert_eq!(decode_all(b"\n"), (Err(Error::ExpectedLine), 0));
    assert_eq!(decode_all(b"+OK\r"), (Err(Error::ExpectedLine), 0));
    assert_eq!(decode_all(b"*1\r\n+OK"), (Err(Error::ExpectedLine), 0));
}

#[test]
fn invalid_text() {
    assert_eq!(decode_all(b"+\xff\r\n:1\r\n"), (Err(Error::InvalidUtf8), 4));
    assert_eq!(decode_all(b":\xc3\r\n"), (Err(Error::InvalidUtf8), 0));
    assert_eq!(decode_all(b"\xff\r\n"), (Err(Error::InvalidUtf8), 0));
    assert_eq!(decode_all(b"$2\r\n\xc3\x28\r\n"), (Err(Error::InvalidUtf8), 0));
    assert_eq!(
        decode_all(b"$3\r\n\xed\xa0\x80\r\n"),
        (Err(Error::InvalidUtf8), 0)
    );
    assert_eq!(
        decode_all(b"$2\r\n\xc3\xa9\r\n"),
        (Ok(Type::BulkString("\u{e9}".to_string())), 0)
    );
    assert_eq!(
        decode_all(b"+\xe4\xb8\x96\r\n"),
        (Ok(Type::SimpleString("\u{4e16}".to_string())), 0)
    );
}

#[test]
fn invalid_numbers() {
    for bytes in [
        &b":\r\n"[..],
        b":abc\r\n",
        b":1 \r\n",
        b": 1\r\n",
        b":-\r\n",
        b":+\r\n",
        b":--1\r\n",
        b":1_000\r\n",
        b":9223372036854775808\r\n",
        b":-9223372036854775809\r\n",
        b"$\r\n",
        b"$-2\r\n",
        b"$-0\r\n",
        b"$1x\r\n",
        b"*-2\r\n",
        b"*x\r\n",
        b"*99999999999999999999999\r\n",
    ] {
        assert_eq!(decode_all(bytes), (Err(Error::InvalidNumber), 0));
    }
}

#[test]
fn numbers_with_sign_and_zeros() {
    assert_eq!(decode_all(b":+5\r\n"), (Ok(Type::Integer(5)), 0));
    assert_eq!(decode_all(b":-0\r\n"), (Ok(Type::Integer(0)), 0));
    assert_eq!(decode_all(b":007\r\n"), (Ok(Type::Integer(7)), 0));
    assert_eq!(
        decode_all(b":-9223372036854775808\r\n"),
        (Ok(Type::Integer(i64::MIN)), 0)
    );
    assert_eq!(
        decode_all(b"$+2\r\nab\r\n"),
        (Ok(Type::BulkString("ab".to_string())), 0)
    );
    assert_eq!(
        decode_all(b"*01\r\n:1\r\n"),
        (Ok(Type::Array(vec![Type::Integer(1)])), 0)
    );
    assert_eq!(decode_all(b"*0\r\n"), (Ok(Type::Array(vec![])), 0));
}

#[test]
fn unknown_types() {
    assert_eq!(decode_all(b"\r\n"), (Err(Error::UnknownType), 0));
    assert_eq!(decode_all(b"?what\r\n+OK\r\n"), (Err(Error::UnknownType), 5));
    assert_eq!(decode_all(b"hello\r\n"), (Err(Error::UnknownType), 0));
}

#[test]
fn array_stops_at_the_first_failure() {
    assert_eq!(
        decode_all(b"*3\r\n:1\r\n?\r\n:3\r\n"),
        (Err(Error::UnknownType), 4)
    );
    assert_eq!(
        decode_all(b"*2\r\n*1\r\n:x\r\n:3\r\n"),
        (Err(Error::InvalidNumber), 4)
    );
}

#[test]
fn nested_null_forms() {
    assert_eq!(
        decode_all(b"*2\r\n*-1\r\n$-1\r\n"),
        (Ok(Type::Array(vec![Type::Null, Type::Null])), 0)
    );
}

#[test]
fn error_messages() {
    assert_eq!(Error::UnexpectedEof.message(), "unexpected eof");
    assert_eq!(Error::ExpectedLine.message(), "expected line");
    assert_eq!(Error::InvalidUtf8.message(), "expected utf-8");
    assert_eq!(Error::InvalidNumber.message(), "invalid number");
    assert_eq!(Error::UnknownType.message(), "unknown type");
    assert_eq!(Error::Truncated.message(), "early eof");
}

#[test]
fn clone_is_equal() {
    let value = nested(3);
    assert_eq!(value.clone(), value);
}

#[test]
fn header_lines() {
    let head = |line: &str| read_head(&line.to_string());
    assert_eq!(
        head("+OK"),
        Ok(Head::Whole(Type::SimpleString("OK".to_string())))
    );
    assert_eq!(
        head("-ERR no"),
        Ok(Head::Whole(Type::Error("ERR no".to_string())))
    );
    assert_eq!(head("+"), Ok(Head::Whole(Type::SimpleString(String::new()))));
    assert_eq!(head(":-12"), Ok(Head::Whole(Type::Integer(-12))));
    assert_eq!(head("$-1"), Ok(Head::Whole(Type::Null)));
    assert_eq!(head("*-1"), Ok(Head::Whole(Type::Null)));
    assert_eq!(head("$0"), Ok(Head::Bulk(0)));
    assert_eq!(head("$11"), Ok(Head::Bulk(11)));
    assert_eq!(head("*0"), Ok(Head::Array(0)));
    assert_eq!(head("*3"), Ok(Head::Array(3)));
    assert_eq!(head(""), Err(Error::UnknownType));
    assert_eq!(head("!"), Err(Error::UnknownType));
    assert_eq!(head("\u{e9}"), Err(Error::UnknownType));
    assert_eq!(head(":"), Err(Error::InvalidNumber));
    assert_eq!(head("$-1 "), Err(Error::InvalidNumber));
    assert_eq!(head("*-10"), Err(Error::InvalidNumber));
    assert_eq!(
        head("+h\u{e9}llo"),
        Ok(Head::Whole(Type::SimpleString("h\u{e9}llo".to_string())))
    );
}
