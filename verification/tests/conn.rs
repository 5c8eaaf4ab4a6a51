use redcon::conn::{dispatch, serve, serve_with, Action};
use redcon::{Conn, Error, Type};

fn frames(bytes: &[u8]) -> Vec<Type> {
    let mut src: &[u8] = bytes;
    let mut out = vec![];
    while !src.is_empty() {
        out.push(Type::read(&mut src).unwrap());
    }
    out
}

#[test]
fn accept_connections() {
    let mut client = vec![];
    Type::SimpleString("ping".to_string()).write(&mut client);

    let mut conn = Conn::new();
    serve(&client, &mut conn, |cmd: Type| {
        assert!(matches!(cmd, Type::SimpleString(cmd) if cmd == "ping"));
        Type::SimpleString("pong".to_string())
    });

    let reply = conn.take();
    assert_eq!(
        Type::read(&mut reply.as_slice()),
        Ok(Type::SimpleString("pong".to_string()))
    );
}

#[test]
fn writing_to_conn() {
    let mut client = vec![];
    Type::SimpleString("start".to_string()).write(&mut client);

    let mut conn = serve_with(&client, Conn::new(), |mut conn: Conn, _cmd: Type| {
        conn.write_simple_string("simple string".to_string());
        conn.write_error("error".to_string());
        conn.write_integer(42);
        conn.write_bulk_string("bulk string".to_string());
        conn.write_null();
        conn.write_array(vec![Type::Null, Type::Integer(42)]);
        conn
    });

    let sent = conn.take();
    let mut client: &[u8] = sent.as_slice();
    assert_eq!(
        Type::read(&mut client),
        Ok(Type::SimpleString("simple string".to_string()))
    );
    assert_eq!(Type::read(&mut client), Ok(Type::Error("error".to_string())));
    assert_eq!(Type::read(&mut client), Ok(Type::Integer(42)));
    assert_eq!(
        Type::read(&mut client),
        Ok(Type::BulkString("bulk string".to_string()))
    );
    assert_eq!(Type::read(&mut client), Ok(Type::Null));
    assert_eq!(
        Type::read(&mut client),
        Ok(Type::Array(vec![Type::Null, Type::Integer(42)]))
    );
    assert_eq!(Type::read(&mut client), Err(Error::UnexpectedEof));
}

#[test]
fn handler_may_reply_more_than_once_or_not_at_all() {
    let mut conn = serve_with(
        b":0\r\n:2\r\n?\r\n:1\r\n",
        Conn::new(),
        |mut conn: Conn, cmd: Type| {
            if let Type::Integer(n) = cmd {
                for i in 0..n {
                    conn.write_integer(10 * n + i);
                }
            }
            conn
        },
    );
    assert_eq!(conn.take(), b":20\r\n:21\r\n:10\r\n".to_vec());
}

#[test]
fn ping_gets_exactly_pong() {
    let mut conn = Conn::new();
    serve(b"+ping\r\n", &mut conn, |_cmd: Type| {
        Type::SimpleString("pong".to_string())
    });
    assert_eq!(conn.take(), b"+pong\r\n".to_vec());
}

#[test]
fn array_is_echoed_as_bulk_strings() {
    let mut conn = Conn::new();
    serve(b"*1\r\n$5\r\nhello\r\n", &mut conn, |cmd: Type| match cmd {
        Type::Array(items) => Type::Array(
            items
                .into_iter()
                .map(|item| match item {
                    Type::BulkString(s) | Type::SimpleString(s) => Type::BulkString(s),
                    other => other,
                })
                .collect(),
        ),
        other => other,
    });
    assert_eq!(conn.take(), b"*1\r\n$5\r\nhello\r\n".to_vec());
}

#[test]
fn exact_frames_of_each_write() {
    let mut conn = Conn::new();
    conn.write_simple_string("OK".to_string());
    assert_eq!(conn.take(), b"+OK\r\n".to_vec());
    conn.write_error("ERR x".to_string());
    assert_eq!(conn.take(), b"-ERR x\r\n".to_vec());
    conn.write_integer(-3);
    assert_eq!(conn.take(), b":-3\r\n".to_vec());
    conn.write_bulk_string("ab".to_string());
    assert_eq!(conn.take(), b"$2\r\nab\r\n".to_vec());
    conn.write_null();
    assert_eq!(conn.take(), b"$-1\r\n".to_vec());
    conn.write_array(vec![Type::Integer(1), Type::BulkString("b".to_string())]);
    assert_eq!(conn.take(), b"*2\r\n:1\r\n$1\r\nb\r\n".to_vec());
    conn.write(Type::Integer(9));
    assert_eq!(conn.take(), b":9\r\n".to_vec());
    assert_eq!(conn.take(), Vec::<u8>::new());
}

#[test]
fn two_writes_are_two_whole_frames() {
    let a = Type::Array(vec![
        Type::BulkString("first".to_string()),
        Type::Integer(1),
    ]);
    let b = Type::Array(vec![
        Type::BulkString("second".to_string()),
        Type::Integer(2),
    ]);
    let mut one = Conn::new();
    one.write(a.clone());
    one.write(b.clone());
    assert_eq!(frames(&one.take()), vec![a.clone(), b.clone()]);
    let mut other = Conn::new();
    other.write(b.clone());
    other.write(a.clone());
    assert_eq!(frames(&other.take()), vec![b, a]);
}

#[test]
fn serve_answers_every_command_in_order() {
    let mut conn = Conn::new();
    conn.write_integer(0);
    serve(b":1\r\n:2\r\n:3\r\n", &mut conn, |cmd: Type| match cmd {
        Type::Integer(n) => Type::Integer(n * 10),
        other => other,
    });
    assert_eq!(conn.take(), b":0\r\n:10\r\n:20\r\n:30\r\n".to_vec());
}

#[test]
fn serve_passes_over_what_does_not_decode() {
    let mut conn = Conn::new();
    serve(
        b":1\r\n?\r\n:x\r\n+bad\n:2\r\n$3\r\nabcd\r\n:3\r\n",
        &mut conn,
        |cmd: Type| cmd,
    );
    assert_eq!(conn.take(), b":1\r\n:2\r\n:3\r\n".to_vec());
}

#[test]
fn serve_stops_at_the_end_of_the_stream() {
    let mut conn = Conn::new();
    serve(b"", &mut conn, |cmd: Type| cmd);
    assert_eq!(conn.take(), Vec::<u8>::new());
    serve(b":1\r\n*2\r\n:2\r\n", &mut conn, |cmd: Type| cmd);
    assert_eq!(conn.take(), b":1\r\n".to_vec());
    serve(b":1\r\n$9\r\nabc", &mut conn, |cmd: Type| cmd);
    assert_eq!(conn.take(), b":1\r\n".to_vec());
}

#[test]
fn dispatch_decides() {
    assert!(matches!(
        dispatch(Ok(Type::Integer(5))),
        Action::Dispatch(Type::Integer(5))
    ));
    assert!(matches!(dispatch(Err(Error::UnexpectedEof)), Action::Close));
    for e in [
        Error::ExpectedLine,
        Error::InvalidUtf8,
        Error::InvalidNumber,
        Error::UnknownType,
        Error::Truncated,
    ] {
        assert!(matches!(dispatch(Err(e)), Action::Report(r) if r == e));
    }
}
