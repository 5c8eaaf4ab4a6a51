//! One connection: the handle through which replies are written, and the
//! rules by which the frames that arrive are handed to a handler.

use crate::laws::{
    lemma_decode_rest, lemma_encode_all_front, lemma_encode_not_empty, lemma_end_of_stream,
    lemma_round_trip, lemma_round_trip_all, sendable,
};
use crate::resp::{decode, decode_items, encode, encode_all, views, Decoded, Error, Type, Value};
use vstd::prelude::*;

verus! {

/// The writer handle of one connection.
///
/// It holds the bytes that were written and not yet sent. Every write puts
/// one whole frame behind them, so what it holds is at all times a run of
/// whole frames, whoever wrote them and in whatever order.
pub struct Conn {
    out: Vec<u8>,
    frames: Ghost<Seq<Value>>,
}

impl View for Conn {
    type V = Seq<u8>;

    /// The bytes that were written and not yet sent.
    closed spec fn view(&self) -> Seq<u8> {
        self.out@
    }
}

impl Conn {
    /// Whether what the handle holds is the frames of what was written, one
    /// after the other. It is so from the start and after every operation.
    pub closed spec fn wf(&self) -> bool {
        self.out@ == encode_all(self.frames@)
    }

    /// The bytes of a handle are whole frames: those of the values that were
    /// written, in the order in which they were written, and nothing between
    /// them.
    pub proof fn lemma_whole_frames(conn: Conn)
        requires
            conn.wf(),
        ensures
            conn@ == encode_all(conn.frames()),
    {
    }

    /// The values whose frames were written and not yet sent, in the order
    /// in which they were written.
    pub closed spec fn frames(&self) -> Seq<Value> {
        self.frames@
    }

    /// A handle that holds nothing.
    pub fn new() -> (conn: Conn)
        ensures
            conn@ == Seq::<u8>::empty(),
            conn.frames() == Seq::<Value>::empty(),
            conn.wf(),
    {
        Conn { out: Vec::new(), frames: Ghost(Seq::empty()) }
    }

    /// Writes one value as one whole frame.
    pub fn write(&mut self, value: Type)
        requires
            old(self).wf(),
        ensures
            final(self)@ == old(self)@ + encode(value@),
            final(self).frames() == old(self).frames().push(value@),
            final(self).wf(),
    {
        let ghost before = self.frames@;
        let ghost v = value@;
        value.write(&mut self.out);
        self.frames = Ghost(before.push(v));
        proof {
            assert(before.push(v).drop_last() =~= before);
        }
    }

    /// Writes a simple string.
    pub fn write_simple_string(&mut self, str: String)
        requires
            old(self).wf(),
        ensures
            final(self)@ == old(self)@ + encode(Value::SimpleString(str@)),
            final(self).frames() == old(self).frames().push(Value::SimpleString(str@)),
            final(self).wf(),
    {
        self.write(Type::SimpleString(str));
    }

    /// Writes an error.
    pub fn write_error(&mut self, err: String)
        requires
            old(self).wf(),
        ensures
            final(self)@ == old(self)@ + encode(Value::Error(err@)),
            final(self).frames() == old(self).frames().push(Value::Error(err@)),
            final(self).wf(),
    {
        self.write(Type::Error(err));
    }

    /// Writes an integer.
    pub fn write_integer(&mut self, num: i64)
        requires
            old(self).wf(),
        ensures
            final(self)@ == old(self)@ + encode(Value::Integer(num)),
            final(self).frames() == old(self).frames().push(Value::Integer(num)),
            final(self).wf(),
    {
        self.write(Type::Integer(num));
    }

    /// Writes a bulk string.
    pub fn write_bulk_string(&mut self, str: String)
        requires
            old(self).wf(),
        ensures
            final(self)@ == old(self)@ + encode(Value::BulkString(str@)),
            final(self).frames() == old(self).frames().push(Value::BulkString(str@)),
            final(self).wf(),
    {
        self.write(Type::BulkString(str));
    }

    /// Writes the null value.
    pub fn write_null(&mut self)
        requires
            old(self).wf(),
        ensures
            final(self)@ == old(self)@ + encode(Value::Null),
            final(self).frames() == old(self).frames().push(Value::Null),
            final(self).wf(),
    {
        self.write(Type::Null);
    }

    /// Writes an array.
    pub fn write_array(&mut self, arr: Vec<Type>)
        requires
            old(self).wf(),
        ensures
            final(self)@ == old(self)@ + encode(Value::Array(views(arr@))),
            final(self).frames() == old(self).frames().push(Value::Array(views(arr@))),
            final(self).wf(),
    {
        self.write(Type::Array(arr));
    }

    /// Hands out the bytes that were written, to be sent, and holds nothing
    /// afterwards.
    pub fn take(&mut self) -> (bytes: Vec<u8>)
        requires
            old(self).wf(),
        ensures
            bytes@ == old(self)@,
            bytes@ == encode_all(old(self).frames()),
            final(self)@ == Seq::<u8>::empty(),
            final(self).frames() == Seq::<Value>::empty(),
            final(self).wf(),
    {
        let mut bytes: Vec<u8> = Vec::new();
        std::mem::swap(&mut self.out, &mut bytes);
        self.frames = Ghost(Seq::empty());
        bytes
    }
}

/// What a connection does with the outcome of one read.
pub enum Action {
    /// Hand the command to the handler, and go on reading.
    Dispatch(Type),
    /// Make the failure known, and go on reading.
    Report(Error),
    /// Stop reading: the peer has closed the connection.
    Close,
}

/// Decides what follows one read: a decoded frame is dispatched, the end
/// of the stream closes the connection, and any other failure is reported
/// while the connection stays open.
pub fn dispatch(outcome: Result<Type, Error>) -> (action: Action)
    ensures
        match outcome {
            Ok(cmd) => action == Action::Dispatch(cmd),
            Err(e) => if e == Error::UnexpectedEof {
                action == Action::Close
            } else {
                action == Action::Report(e)
            },
        },
{
    match outcome {
        Ok(cmd) => Action::Dispatch(cmd),
        Err(e) => if e.is_eof() {
            Action::Close
        } else {
            Action::Report(e)
        },
    }
}

/// The commands that a connection dispatches when its input is `s`: the
/// frames that decode, in order, up to the first end of the stream. A frame
/// that fails in another way is passed over, and reading goes on behind what
/// that attempt took.
///
/// Every attempt on input that is not empty takes at least one byte
/// ([`crate::laws::lemma_decode_rest`]), so the test on the lengths never
/// stops the reading; it is what shows that the definition ends.
pub open spec fn commands(s: Seq<u8>) -> Seq<Value>
    decreases s.len(),
{
    let d = decode(s);
    if d.result == Err::<Value, Error>(Error::UnexpectedEof) || d.rest.len() >= s.len() {
        Seq::empty()
    } else {
        match d.result {
            Ok(cmd) => seq![cmd] + commands(d.rest),
            Err(_) => commands(d.rest),
        }
    }
}

/// A connection reads frame after frame until the stream ends: the test on
/// the lengths in [`commands`] never stops it.
pub proof fn lemma_commands_step(s: Seq<u8>)
    ensures
        commands(s) == match decode(s).result {
            Ok(cmd) => seq![cmd] + commands(decode(s).rest),
            Err(e) => if e == Error::UnexpectedEof {
                Seq::empty()
            } else {
                commands(decode(s).rest)
            },
        },
{
    lemma_decode_rest(s);
    lemma_end_of_stream();
    if s.len() == 0 {
        assert(s =~= Seq::<u8>::empty());
    }
}

/// A connection whose input is frames that were written, and then `tail`,
/// dispatches the values of those frames, in order, and then what it
/// dispatches on `tail`.
pub proof fn lemma_commands_of_frames(items: Seq<Value>, tail: Seq<u8>)
    requires
        forall|i: int| 0 <= i < items.len() ==> sendable(#[trigger] items[i]),
    ensures
        commands(encode_all(items) + tail) == items + commands(tail),
    decreases items.len(),
{
    if items.len() == 0 {
        assert(encode_all(items) + tail =~= tail);
        assert(items + commands(tail) =~= commands(tail));
    } else {
        let first = items[0];
        let others = items.drop_first();
        let behind = encode_all(others) + tail;
        let input = encode_all(items) + tail;
        assert(items =~= seq![first] + others);
        lemma_encode_all_front(first, others);
        assert(input =~= encode(first) + behind);
        lemma_round_trip(first, behind);
        lemma_encode_not_empty(first);
        assert forall|i: int| 0 <= i < others.len() implies sendable(#[trigger] others[i]) by {
            assert(others[i] == items[i + 1]);
        }
        lemma_commands_of_frames(others, tail);
        assert(commands(input) == seq![first] + commands(behind));
        assert(seq![first] + (others + commands(tail)) =~= items + commands(tail));
    }
}

/// Whether `reply` is what `handler` may answer to `cmd`.
pub open spec fn answers<F: Fn(Type) -> Type>(handler: F, cmd: Value, reply: Value) -> bool {
    exists|c: Type, r: Type| c@ == cmd && r@ == reply && call_ensures(handler, (c,), r)
}

/// Whether `replies` are what `handler` may answer to `cmds`, one for one.
pub open spec fn served<F: Fn(Type) -> Type>(
    handler: F,
    cmds: Seq<Value>,
    replies: Seq<Value>,
) -> bool {
    &&& replies.len() == cmds.len()
    &&& forall|i: int|
        0 <= i < cmds.len() ==> answers(handler, cmds[i], #[trigger] replies[i])
}

/// Runs one connection whose whole input is `input`, with a handler that
/// maps each command to its reply: every command is answered, and the
/// replies are written to `conn` in the order of the commands.
pub fn serve<F: Fn(Type) -> Type>(input: &[u8], conn: &mut Conn, handler: F)
    requires
        old(conn).wf(),
        forall|cmd: Type| call_requires(handler, (cmd,)),
    ensures
        final(conn).wf(),
        exists|replies: Seq<Value>|
            served(handler, commands(input@), replies) && final(conn).frames() == old(
                conn,
            ).frames() + replies,
{
    let mut src: &[u8] = input;
    let mut open: bool = true;
    let ghost mut done: Seq<Value> = Seq::empty();
    let ghost mut replies: Seq<Value> = Seq::empty();
    proof {
        assert(old(conn).frames() + replies =~= old(conn).frames());
        assert(done + commands(src@) =~= commands(input@));
    }
    while open
        invariant
            conn.wf(),
            forall|cmd: Type| call_requires(handler, (cmd,)),
            commands(input@) == done + if open {
                commands(src@)
            } else {
                Seq::<Value>::empty()
            },
            served(handler, done, replies),
            conn.frames() == old(conn).frames() + replies,
        decreases
            if open {
                src@.len() + 1
            } else {
                0
            },
    {
        let ghost here = src@;
        proof {
            lemma_decode_rest(here);
        }
        match dispatch(Type::read(&mut src)) {
            Action::Dispatch(cmd) => {
                let ghost c = cmd;
                let reply: Type = handler(cmd);
                let ghost r = reply;
                conn.write(reply);
                proof {
                    assert(answers(handler, c@, r@));
                    let grown = replies.push(r@);
                    assert forall|i: int| 0 <= i < done.push(c@).len() implies answers(
                        handler,
                        done.push(c@)[i],
                        #[trigger] grown[i],
                    ) by {
                        if i < done.len() {
                            assert(grown[i] == replies[i]);
                        }
                    }
                    assert(done + (seq![c@] + commands(src@)) =~= done.push(c@) + commands(src@));
                    assert(old(conn).frames() + grown =~= (old(conn).frames() + replies).push(
                        r@,
                    ));
                    done = done.push(c@);
                    replies = grown;
                }
            },
            Action::Report(_) => {},
            Action::Close => {
                open = false;
            },
        }
    }
    proof {
        assert(done + Seq::<Value>::empty() =~= done);
    }
}

/// Whether a handler that writes its replies itself may turn the handle
/// `before` into the handle `after` while it is given the commands `cmds`
/// one after the other, each time with the handle as the command before
/// left it.
pub open spec fn handled<F: Fn(Conn, Type) -> Conn>(
    handler: F,
    cmds: Seq<Value>,
    before: Conn,
    after: Conn,
) -> bool
    decreases cmds.len(),
{
    if cmds.len() == 0 {
        after == before
    } else {
        exists|cmd: Type, mid: Conn|
            cmd@ == cmds.last() && handled(handler, cmds.drop_last(), before, mid) && call_ensures(
                handler,
                (mid, cmd),
                after,
            )
    }
}

/// What [`handled`] says of a single command: the handler was called with
/// the handle as it was before, and gave the handle as it is after.
pub proof fn lemma_handled_once<F: Fn(Conn, Type) -> Conn>(
    handler: F,
    cmds: Seq<Value>,
    before: Conn,
    after: Conn,
)
    requires
        handled(handler, cmds, before, after),
        cmds.len() == 1,
    ensures
        exists|cmd: Type| cmd@ == cmds[0] && call_ensures(handler, (before, cmd), after),
{
    let (cmd, mid) = choose|cmd: Type, mid: Conn|
        cmd@ == cmds.last() && handled(handler, cmds.drop_last(), before, mid) && call_ensures(
            handler,
            (mid, cmd),
            after,
        );
    assert(handled(handler, cmds.drop_last(), before, mid));
}

/// Runs one connection whose whole input is `input`, with a handler that
/// gets the writer handle with each command, writes to it what it likes,
/// nothing or several replies, and gives it back.
pub fn serve_with<F: Fn(Conn, Type) -> Conn>(input: &[u8], conn: Conn, handler: F) -> (after: Conn)
    requires
        conn.wf(),
        forall|c: Conn, cmd: Type| c.wf() ==> call_requires(handler, (c, cmd)),
        forall|c: Conn, cmd: Type, r: Conn| call_ensures(handler, (c, cmd), r) ==> r.wf(),
    ensures
        after.wf(),
        handled(handler, commands(input@), conn, after),
{
    let mut src: &[u8] = input;
    let mut open: bool = true;
    let mut conn: Conn = conn;
    let ghost first = conn;
    let ghost mut done: Seq<Value> = Seq::empty();
    proof {
        assert(done + commands(src@) =~= commands(input@));
    }
    while open
        invariant
            conn.wf(),
            forall|c: Conn, cmd: Type| c.wf() ==> call_requires(handler, (c, cmd)),
            forall|c: Conn, cmd: Type, r: Conn| call_ensures(handler, (c, cmd), r) ==> r.wf(),
            commands(input@) == done + if open {
                commands(src@)
            } else {
                Seq::<Value>::empty()
            },
            handled(handler, done, first, conn),
        decreases
            if open {
                src@.len() + 1
            } else {
                0
            },
    {
        let ghost here = src@;
        proof {
            lemma_decode_rest(here);
        }
        match dispatch(Type::read(&mut src)) {
            Action::Dispatch(cmd) => {
                let ghost c = cmd;
                let ghost mid = conn;
                conn = handler(conn, cmd);
                proof {
                    assert(done.push(c@).drop_last() =~= done);
                    assert(handled(handler, done.push(c@), first, conn));
                    assert(done + (seq![c@] + commands(src@)) =~= done.push(c@) + commands(src@));
                    done = done.push(c@);
                }
            },
            Action::Report(_) => {},
            Action::Close => {
                open = false;
            },
        }
    }
    proof {
        assert(done + Seq::<Value>::empty() =~= done);
    }
    conn
}

} // verus!
