use redcon::decimal::{read_i64, read_usize, write_i64, write_usize};

fn text_i64(n: i64) -> Vec<u8> {
    let mut out = vec![];
    write_i64(&mut out, n);
    out
}

fn text_usize(n: usize) -> Vec<u8> {
    let mut out = vec![];
    write_usize(&mut out, n);
    out
}

#[test]
fn writes_decimal_text() {
    assert_eq!(text_i64(0), b"0".to_vec());
    assert_eq!(text_i64(7), b"7".to_vec());
    assert_eq!(text_i64(10), b"10".to_vec());
    assert_eq!(text_i64(-1), b"-1".to_vec());
    assert_eq!(text_i64(1000), b"1000".to_vec());
    assert_eq!(text_i64(i64::MAX), b"9223372036854775807".to_vec());
    assert_eq!(text_i64(i64::MIN), b"-9223372036854775808".to_vec());
    assert_eq!(text_usize(0), b"0".to_vec());
    assert_eq!(text_usize(11), b"11".to_vec());
    assert_eq!(text_usize(usize::MAX), usize::MAX.to_string().into_bytes());
}

#[test]
fn write_keeps_what_is_there() {
    let mut out = b"ab".to_vec();
    write_usize(&mut out, 305);
    write_i64(&mut out, -40);
    assert_eq!(out, b"ab305-40".to_vec());
}

#[test]
fn reads_signed() {
    assert_eq!(read_i64(b"0"), Some(0));
    assert_eq!(read_i64(b"-0"), Some(0));
    assert_eq!(read_i64(b"+0"), Some(0));
    assert_eq!(read_i64(b"1000"), Some(1000));
    assert_eq!(read_i64(b"+42"), Some(42));
    assert_eq!(read_i64(b"-42"), Some(-42));
    assert_eq!(read_i64(b"0042"), Some(42));
    assert_eq!(read_i64(b"9223372036854775807"), Some(i64::MAX));
    assert_eq!(read_i64(b"-9223372036854775808"), Some(i64::MIN));
    assert_eq!(read_i64(b"00000000000000000000000000042"), Some(42));
}

#[test]
fn refuses_signed() {
    for s in [
        &b""[..],
        b"+",
        b"-",
        b"+-1",
        b"-+1",
        b"--1",
        b"1-",
        b"1.0",
        b" 1",
        b"1 ",
        b"0x10",
        b"9223372036854775808",
        b"-9223372036854775809",
        b"99999999999999999999",
        b"18446744073709551616",
        b"\xff",
    ] {
        assert_eq!(read_i64(s), None);
    }
}

#[test]
fn reads_unsigned() {
    assert_eq!(read_usize(b"0"), Some(0));
    assert_eq!(read_usize(b"+0"), Some(0));
    assert_eq!(read_usize(b"11"), Some(11));
    assert_eq!(read_usize(b"+11"), Some(11));
    assert_eq!(read_usize(b"011"), Some(11));
    assert_eq!(
        read_usize(usize::MAX.to_string().as_bytes()),
        Some(usize::MAX)
    );
}

#[test]
fn refuses_unsigned() {
    for s in [
        &b""[..],
        b"+",
        b"-",
        b"-0",
        b"-1",
        b"++1",
        b"1a",
        b"340282366920938463463374607431768211456",
    ] {
        assert_eq!(read_usize(s), None);
    }
    let mut over = usize::MAX.to_string().into_bytes();
    let last = over.len() - 1;
    over[last] += 1;
    assert_eq!(read_usize(&over), None);
}

#[test]
fn agrees_with_the_standard_library() {
    let samples: [i64; 9] = [0, 1, -1, 9, 10, -10, 123456789, i64::MAX, i64::MIN];
    for n in samples {
        assert_eq!(text_i64(n), n.to_string().into_bytes());
        assert_eq!(read_i64(n.to_string().as_bytes()), Some(n));
    }
    for s in ["", "+", "-", "+7", "-7", "007", "7x", "١٢"] {
        assert_eq!(read_i64(s.as_bytes()), s.parse::<i64>().ok());
        assert_eq!(read_usize(s.as_bytes()), s.parse::<usize>().ok());
    }
}
