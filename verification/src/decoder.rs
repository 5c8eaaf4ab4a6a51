//! Decoding a frame piece by piece.
//!
//! [`Type::read`] takes a frame off input that is all there. A connection
//! gets its input in pieces, and has to wait between them. The [`Decoder`]
//! keeps what is decoded so far, says which piece it wants next, and takes
//! the pieces as they come. Fed the pieces of an input one after the other,
//! it gives what [`decode`] gives for the whole.

use crate::laws::{lemma_decode_line_rest, lemma_decode_rest};
use crate::resp::{
    decode, decode_items, decode_line, decode_payload, find_line_end, header, is_first_lf,
    line_end, read_head, read_line, read_payload, result_view, views, Decoded, Error, Head,
    Header, Type, Value, LF,
};
use vstd::prelude::*;
use vstd::slice::slice_subrange;

verus! {

/// An array that waits for items: how many are still missing, and the ones
/// that are there.
pub struct Open {
    pub missing: nat,
    pub items: Seq<Value>,
}

/// What a decoder holds between two pieces: the arrays that wait for
/// items, the outermost first, and the length of the payload that it waits
/// for, if any.
pub struct State {
    pub open: Seq<Open>,
    pub payload: Option<nat>,
}

/// What decoding gives once the value `v` is there, while the arrays `open`
/// wait and the input `s` is left: `v` is the next item of the innermost
/// array, which may complete it, and so on outwards.
pub open spec fn deliver(open: Seq<Open>, v: Value, s: Seq<u8>) -> Decoded<Value>
    decreases open.len(), 1nat,
{
    if open.len() == 0 {
        Decoded { result: Ok(v), rest: s }
    } else {
        let top = open.last();
        if top.missing <= 1 {
            deliver(open.drop_last(), Value::Array(top.items.push(v)), s)
        } else {
            resume(
                open.drop_last().push(
                    Open { missing: (top.missing - 1) as nat, items: top.items.push(v) },
                ),
                s,
            )
        }
    }
}

/// What decoding gives when it goes on with the input `s`, while the
/// arrays `open` wait for items.
pub open spec fn resume(open: Seq<Open>, s: Seq<u8>) -> Decoded<Value>
    decreases open.len(), 0nat,
{
    if open.len() == 0 {
        decode(s)
    } else {
        let top = open.last();
        let d = decode_items(s, top.missing);
        match d.result {
            Err(e) => Decoded { result: Err(e), rest: d.rest },
            Ok(vs) => deliver(open.drop_last(), Value::Array(top.items + vs), d.rest),
        }
    }
}

impl State {
    /// The state in which nothing is decoded yet.
    pub open spec fn fresh() -> State {
        State { open: Seq::empty(), payload: None }
    }

    /// Every array that waits misses at least one item.
    pub open spec fn wf(self) -> bool {
        forall|i: int| 0 <= i < self.open.len() ==> (#[trigger] self.open[i]).missing >= 1
    }

    /// Whether `bytes` is the piece that a decoder in this state wants of
    /// the input `bytes + rest`.
    pub open spec fn is_piece(self, bytes: Seq<u8>, rest: Seq<u8>) -> bool {
        match self.payload {
            None => is_line_of(bytes, rest),
            Some(len) => is_payload_of(bytes, len, rest),
        }
    }

    /// What decoding gives when it goes on from this state with the input
    /// `s`.
    pub open spec fn outcome(self, s: Seq<u8>) -> Decoded<Value> {
        match self.payload {
            None => resume(self.open, s),
            Some(len) => {
                let d = decode_payload(s, len);
                match d.result {
                    Err(e) => Decoded { result: Err(e), rest: d.rest },
                    Ok(v) => deliver(self.open, v, d.rest),
                }
            },
        }
    }
}

/// Whether `bytes` is the first line of the input `bytes + rest`: it ends
/// with the first line feed of that input, or the input ends with it.
pub open spec fn is_line_of(bytes: Seq<u8>, rest: Seq<u8>) -> bool {
    line_end(bytes + rest) == bytes.len()
}

/// Whether `bytes` is what the input `bytes + rest` holds of a payload of
/// `len` bytes and its terminator: all of it, or less where the input ends.
pub open spec fn is_payload_of(bytes: Seq<u8>, len: nat, rest: Seq<u8>) -> bool {
    bytes.len() == len + 2 || (bytes.len() < len + 2 && rest.len() == 0)
}

/// The piece that a decoder wants next.
#[derive(Debug, Clone, Copy, PartialEq, Eq, Structural)]
pub enum Want {
    /// One line: the input up to and with the next line feed, or up to its
    /// end.
    Line,
    /// The payload of a bulk string of so many bytes, and the two bytes of
    /// its terminator; less only where the input ends before.
    Payload(usize),
}

/// What a piece led to.
#[derive(Debug, PartialEq)]
pub enum Progress {
    /// The frame goes on: the decoder wants another piece.
    More,
    /// The frame is complete.
    Done(Type),
    /// The frame cannot be decoded.
    Failed(Error),
}

/// What decoding gives after a piece led to `p`, left the decoder in
/// `state`, and `rest` is the input behind the piece.
pub open spec fn goes_on(p: Progress, state: State, rest: Seq<u8>) -> Decoded<Value> {
    match p {
        Progress::More => state.outcome(rest),
        Progress::Done(v) => Decoded { result: Ok(v@), rest },
        Progress::Failed(e) => Decoded { result: Err(e), rest },
    }
}

/// The first line of an input is read as it is read alone.
pub proof fn lemma_line_alone(bytes: Seq<u8>, rest: Seq<u8>)
    requires
        is_line_of(bytes, rest),
    ensures
        decode_line(bytes + rest) == (Decoded::<Seq<u8>> {
            result: decode_line(bytes).result,
            rest,
        }),
{
    let s = bytes + rest;
    let n = bytes.len() as int;
    if exists|i: int| is_first_lf(s, i) {
        let c = choose|i: int| is_first_lf(s, i);
        assert(is_first_lf(s, c));
        assert(c == n - 1);
        assert(is_first_lf(bytes, c)) by {
            assert(bytes[c] == s[c]);
            assert forall|j: int| 0 <= j < c implies bytes[j] != LF by {
                assert(bytes[j] == s[j]);
                assert(s[j] != LF);
            }
        }
        let b = choose|i: int| is_first_lf(bytes, i);
        assert(is_first_lf(bytes, b));
        if b < c {
            assert(bytes[b] == s[b]);
            assert(s[b] != LF);
        }
        if c < b {
            assert(bytes[c] != LF);
        }
        assert(b == c);
        assert(line_end(bytes) == n);
    } else {
        assert(n == s.len());
        assert(rest =~= Seq::<u8>::empty());
        assert(s =~= bytes);
        assert(line_end(bytes) == n);
    }
    assert(s.subrange(n, s.len() as int) =~= rest);
    assert(bytes.subrange(n, n) =~= Seq::<u8>::empty());
    if n >= 2 {
        assert(s.subrange(0, n - 2) =~= bytes.subrange(0, n - 2));
        assert(s[n - 2] == bytes[n - 2]);
        assert(s[n - 1] == bytes[n - 1]);
    }
    if n == 0 {
        assert(s.len() == 0);
    }
}

/// Decoding goes on, while arrays wait, by decoding one frame and handing
/// it to them.
pub proof fn lemma_resume(open: Seq<Open>, s: Seq<u8>)
    requires
        (State { open, payload: None }).wf(),
    ensures
        resume(open, s) == match decode(s).result {
            Err(e) => Decoded::<Value> { result: Err(e), rest: decode(s).rest },
            Ok(v) => deliver(open, v, decode(s).rest),
        },
{
    if open.len() > 0 {
        let top = open.last();
        assert(top.missing >= 1) by {
            let state = State { open, payload: None };
            assert(state.open[open.len() - 1].missing >= 1);
        }
        let first = decode(s);
        lemma_decode_rest(s);
        match first.result {
            Err(e) => {},
            Ok(v) => {
                let below = open.drop_last();
                let others = decode_items(first.rest, (top.missing - 1) as nat);
                let d = decode_items(s, top.missing);
                assert(d == match others.result {
                    Ok(vs) => Decoded::<Seq<Value>> { result: Ok(seq![v] + vs), rest: others.rest },
                    Err(e) => Decoded::<Seq<Value>> { result: Err(e), rest: others.rest },
                });
                if top.missing == 1 {
                    assert(others == (Decoded::<Seq<Value>> {
                        result: Ok(Seq::empty()),
                        rest: first.rest,
                    }));
                    assert(top.items + (seq![v] + Seq::<Value>::empty()) =~= top.items.push(v));
                    assert(deliver(open, v, first.rest) == deliver(
                        below,
                        Value::Array(top.items.push(v)),
                        first.rest,
                    ));
                } else {
                    let next = below.push(
                        Open { missing: (top.missing - 1) as nat, items: top.items.push(v) },
                    );
                    assert(next.last().missing == top.missing - 1);
                    assert(next.last().items == top.items.push(v));
                    assert(next.drop_last() =~= below);
                    assert(deliver(open, v, first.rest) == resume(next, first.rest));
                    assert(resume(next, first.rest) == match others.result {
                        Err(e) => Decoded::<Value> { result: Err(e), rest: others.rest },
                        Ok(vs) => deliver(
                            below,
                            Value::Array(top.items.push(v) + vs),
                            others.rest,
                        ),
                    });
                    match others.result {
                        Err(e) => {},
                        Ok(vs) => {
                            assert(top.items + (seq![v] + vs) =~= top.items.push(v) + vs);
                        },
                    }
                }
            },
        }
    }
}

/// What one line leads to, from a state that waits for a line.
pub open spec fn after_line(state: State, bytes: Seq<u8>, rest: Seq<u8>) -> Decoded<Value> {
    match decode_line(bytes).result {
        Err(e) => Decoded { result: Err(e), rest },
        Ok(content) => match header(content) {
            Err(e) => Decoded { result: Err(e), rest },
            Ok(Header::Whole(v)) => deliver(state.open, v, rest),
            Ok(Header::Bulk(len)) => (State { open: state.open, payload: Some(len) }).outcome(
                rest,
            ),
            Ok(Header::Array(count)) => if count == 0 {
                deliver(state.open, Value::Array(Seq::empty()), rest)
            } else {
                resume(state.open.push(Open { missing: count, items: Seq::empty() }), rest)
            },
        },
    }
}

/// Decoding that waits for a line goes on as the line says.
pub proof fn lemma_after_line(state: State, bytes: Seq<u8>, rest: Seq<u8>)
    requires
        state.wf(),
        state.payload is None,
        is_line_of(bytes, rest),
    ensures
        state.outcome(bytes + rest) == after_line(state, bytes, rest),
{
    let s = bytes + rest;
    lemma_line_alone(bytes, rest);
    lemma_resume(state.open, s);
    match decode_line(bytes).result {
        Err(e) => {},
        Ok(content) => match header(content) {
            Err(e) => {},
            Ok(Header::Whole(v)) => {},
            Ok(Header::Bulk(len)) => {},
            Ok(Header::Array(count)) => {
                let items = decode_items(rest, count);
                if count == 0 {
                } else {
                    let next = state.open.push(Open { missing: count, items: Seq::empty() });
                    assert(next.drop_last() =~= state.open);
                    assert(next.last().missing == count);
                    match items.result {
                        Err(e) => {},
                        Ok(vs) => {
                            assert(Seq::<Value>::empty() + vs =~= vs);
                        },
                    }
                }
            },
        },
    }
}

/// Decoding that waits for a payload goes on as the payload says.
pub proof fn lemma_payload_alone(bytes: Seq<u8>, len: nat, rest: Seq<u8>)
    requires
        is_payload_of(bytes, len, rest),
    ensures
        decode_payload(bytes + rest, len) == (Decoded::<Value> {
            result: decode_payload(bytes, len).result,
            rest,
        }),
{
    let s = bytes + rest;
    let n = len as int;
    if bytes.len() == len + 2 {
        assert(s.subrange(0, n) =~= bytes.subrange(0, n));
        assert(s.subrange(n + 2, s.len() as int) =~= rest);
        assert(s[n] == bytes[n]);
        assert(s[n + 1] == bytes[n + 1]);
    } else {
        assert(s =~= bytes);
        assert(rest =~= Seq::<u8>::empty());
    }
}

/// An array under way.
struct Pending {
    missing: usize,
    items: Vec<Type>,
}

impl View for Pending {
    type V = Open;

    closed spec fn view(&self) -> Open {
        Open { missing: self.missing as nat, items: views(self.items@) }
    }
}

/// Decodes one frame from pieces of input.
pub struct Decoder {
    open: Vec<Pending>,
    payload: Option<usize>,
}

impl View for Decoder {
    type V = State;

    closed spec fn view(&self) -> State {
        State {
            open: Seq::new(self.open@.len(), |i: int| self.open@[i]@),
            payload: match self.payload {
                Some(len) => Some(len as nat),
                None => None,
            },
        }
    }
}

impl Decoder {
    /// A decoder that has decoded nothing yet.
    pub fn new() -> (decoder: Decoder)
        ensures
            decoder@ == State::fresh(),
            decoder@.wf(),
    {
        let decoder = Decoder { open: Vec::new(), payload: None };
        assert(decoder@.open =~= Seq::<Open>::empty());
        decoder
    }

    /// The piece that the decoder wants next.
    pub fn want(&self) -> (want: Want)
        ensures
            match want {
                Want::Line => self@.payload is None,
                Want::Payload(len) => self@.payload == Some(len as nat),
            },
    {
        match self.payload {
            Some(len) => Want::Payload(len),
            None => Want::Line,
        }
    }

    /// Forgets what was decoded so far.
    fn reset(&mut self)
        ensures
            final(self)@ == State::fresh(),
    {
        self.open = Vec::new();
        self.payload = None;
        assert(self@.open =~= Seq::<Open>::empty());
    }

    /// Hands a value that is complete to the arrays that wait.
    fn deliver(&mut self, value: Type) -> (p: Progress)
        requires
            old(self)@.wf(),
            old(self)@.payload is None,
        ensures
            final(self)@.wf(),
            !(p is Failed),
            !(p is More) ==> final(self)@ == State::fresh(),
            forall|rest: Seq<u8>| #[trigger]
                deliver(old(self)@.open, value@, rest) == goes_on(p, final(self)@, rest),
    {
        let ghost first = value@;
        let mut current: Type = value;
        loop
            invariant
                self@.wf(),
                self@.payload is None,
                first == value@,
                forall|rest: Seq<u8>| #[trigger]
                    deliver(old(self)@.open, first, rest) == deliver(self@.open, current@, rest),
            decreases self.open@.len(),
        {
            let ghost before = self@;
            match self.open.pop() {
                None => {
                    proof {
                        assert(self@.open =~= Seq::<Open>::empty());
                        assert(before.open =~= Seq::<Open>::empty());
                        assert(self@ == State::fresh());
                        let ghost done = current@;
                        assert forall|rest: Seq<u8>| #[trigger]
                            deliver(old(self)@.open, first, rest) == (Decoded::<Value> {
                                result: Ok(done),
                                rest,
                            }) by {
                            assert(deliver(old(self)@.open, first, rest) == deliver(
                                before.open,
                                done,
                                rest,
                            ));
                        }
                    }
                    return Progress::Done(current);
                },
                Some(top) => {
                    let ghost below = self@.open;
                    let ghost inner = current@;
                    let Pending { missing, mut items } = top;
                    let ghost had = items@;
                    items.push(current);
                    proof {
                        assert(below =~= before.open.drop_last());
                        assert(top@ == before.open.last());
                        assert(items@.drop_last() =~= had);
                        assert(views(items@) =~= views(had).push(inner));
                        assert(before.open.last().missing >= 1);
                    }
                    if missing <= 1 {
                        current = Type::Array(items);
                        proof {
                            assert forall|rest: Seq<u8>| #[trigger]
                                deliver(old(self)@.open, first, rest) == deliver(
                                    self@.open,
                                    current@,
                                    rest,
                                ) by {
                                assert(deliver(old(self)@.open, first, rest) == deliver(
                                    before.open,
                                    inner,
                                    rest,
                                ));
                            }
                            assert(self@.wf()) by {
                                assert forall|i: int| 0 <= i < self@.open.len() implies (
                                #[trigger] self@.open[i]).missing >= 1 by {
                                    assert(self@.open[i] == before.open[i]);
                                }
                            }
                        }
                    } else {
                        let next = Pending { missing: missing - 1, items };
                        let ghost nv = next@;
                        self.open.push(next);
                        proof {
                            assert(self@.open =~= below.push(nv));
                            assert forall|rest: Seq<u8>| #[trigger]
                                deliver(old(self)@.open, first, rest) == self@.outcome(rest) by {
                                assert(deliver(old(self)@.open, first, rest) == deliver(
                                    before.open,
                                    inner,
                                    rest,
                                ));
                                assert(nv == Open {
                                    missing: (before.open.last().missing - 1) as nat,
                                    items: before.open.last().items.push(inner),
                                });
                            }
                            assert(self@.wf()) by {
                                assert forall|i: int| 0 <= i < self@.open.len() implies (
                                #[trigger] self@.open[i]).missing >= 1 by {
                                    if i < below.len() {
                                        assert(self@.open[i] == before.open[i]);
                                    }
                                }
                            }
                        }
                        return Progress::More;
                    }
                },
            }
        }
    }

    /// Takes one line: `bytes` is the input up to and with the next line
    /// feed, or what was left of the input where it has none.
    fn line(&mut self, bytes: &[u8]) -> (p: Progress)
        requires
            old(self)@.wf(),
            old(self)@.payload is None,
        ensures
            final(self)@.wf(),
            !(p is More) ==> final(self)@ == State::fresh(),
            p is More ==> bytes@.len() >= 2,
            forall|rest: Seq<u8>| #[trigger]
                is_line_of(bytes@, rest) ==> old(self)@.outcome(bytes@ + rest) == goes_on(
                    p,
                    final(self)@,
                    rest,
                ),
    {
        let ghost state = self@;
        proof {
            assert forall|rest: Seq<u8>| #[trigger] is_line_of(bytes@, rest) implies state.outcome(
                bytes@ + rest,
            ) == after_line(state, bytes@, rest) by {
                lemma_after_line(state, bytes@, rest);
            }
            lemma_decode_line_rest(bytes@);
        }
        let mut src: &[u8] = bytes;
        let head: Result<Head, Error> = match read_line(&mut src) {
            Ok(text) => read_head(&text),
            Err(e) => Err(e),
        };
        match head {
            Err(e) => {
                self.reset();
                Progress::Failed(e)
            },
            Ok(Head::Whole(value)) => self.deliver(value),
            Ok(Head::Bulk(len)) => {
                self.payload = Some(len);
                assert(self@.open =~= state.open);
                Progress::More
            },
            Ok(Head::Array(count)) => {
                if count == 0 {
                    let items: Vec<Type> = Vec::new();
                    assert(views(items@) =~= Seq::<Value>::empty());
                    self.deliver(Type::Array(items))
                } else {
                    let items: Vec<Type> = Vec::new();
                    assert(views(items@) =~= Seq::<Value>::empty());
                    let next = Pending { missing: count, items };
                    let ghost nv = next@;
                    self.open.push(next);
                    proof {
                        assert(self@.open =~= state.open.push(nv));
                        assert forall|i: int| 0 <= i < self@.open.len() implies (
                        #[trigger] self@.open[i]).missing >= 1 by {
                            if i < state.open.len() {
                                assert(self@.open[i] == state.open[i]);
                            }
                        }
                    }
                    Progress::More
                }
            },
        }
    }

    /// Takes the payload that the decoder waits for: `bytes` is as much of
    /// the payload and its terminator as the input holds.
    fn payload(&mut self, bytes: &[u8]) -> (p: Progress)
        requires
            old(self)@.wf(),
            old(self)@.payload is Some,
        ensures
            final(self)@.wf(),
            !(p is More) ==> final(self)@ == State::fresh(),
            p is More ==> bytes@.len() >= 2,
            forall|rest: Seq<u8>| #[trigger]
                is_payload_of(bytes@, old(self)@.payload->0, rest) ==> old(self)@.outcome(
                    bytes@ + rest,
                ) == goes_on(p, final(self)@, rest),
    {
        let ghost state = self@;
        let len: usize = match self.payload {
            Some(len) => len,
            None => 0,
        };
        proof {
            assert forall|rest: Seq<u8>| #[trigger]
                is_payload_of(bytes@, len as nat, rest) implies decode_payload(
                bytes@ + rest,
                len as nat,
            ) == (Decoded::<Value> { result: decode_payload(bytes@, len as nat).result, rest }) by {
                lemma_payload_alone(bytes@, len as nat, rest);
            }
        }
        self.payload = None;
        assert(self@.open =~= state.open);
        let mut src: &[u8] = bytes;
        match read_payload(&mut src, len) {
            Ok(value) => self.deliver(value),
            Err(e) => {
                self.reset();
                Progress::Failed(e)
            },
        }
    }

    /// Takes the piece that the decoder wanted.
    ///
    /// Where `bytes` is that piece of an input, decoding goes on behind it
    /// as the result says: with the next piece, or not at all, because the
    /// frame is complete or has failed. After either of these the decoder is
    /// as new.
    pub fn feed(&mut self, bytes: &[u8]) -> (p: Progress)
        requires
            old(self)@.wf(),
        ensures
            final(self)@.wf(),
            !(p is More) ==> final(self)@ == State::fresh(),
            p is More ==> bytes@.len() >= 2,
            forall|rest: Seq<u8>| #[trigger]
                old(self)@.is_piece(bytes@, rest) ==> old(self)@.outcome(bytes@ + rest) == goes_on(
                    p,
                    final(self)@,
                    rest,
                ),
    {
        match self.want() {
            Want::Line => self.line(bytes),
            Want::Payload(_) => self.payload(bytes),
        }
    }

    /// Takes the piece that the decoder wants off the front of `src`.
    fn step(&mut self, src: &mut &[u8]) -> (p: Progress)
        requires
            old(self)@.wf(),
        ensures
            final(self)@.wf(),
            old(self)@.outcome((*old(src))@) == goes_on(p, final(self)@, (*final(src))@),
            p is More ==> (*final(src))@.len() < (*old(src))@.len(),
    {
        let s: &[u8] = *src;
        let n: usize = s.len();
        let end: usize = match self.want() {
            Want::Line => find_line_end(s),
            Want::Payload(len) => if n < 2 || n - 2 < len {
                n
            } else {
                len + 2
            },
        };
        let bytes: &[u8] = slice_subrange(s, 0, end);
        *src = slice_subrange(s, end, n);
        proof {
            assert(bytes@ + (*src)@ =~= s@);
            assert(self@.is_piece(bytes@, (*src)@));
        }
        self.feed(bytes)
    }

    /// Decodes one frame off the front of `src` without recursion, piece by
    /// piece, and leaves in `src` the input behind what was read.
    pub fn read(src: &mut &[u8]) -> (r: Result<Type, Error>)
        ensures
            result_view(r) == decode((*old(src))@).result,
            (*final(src))@ == decode((*old(src))@).rest,
            r is Ok ==> (*final(src))@.len() < (*old(src))@.len(),
    {
        let ghost input = (*src)@;
        let mut decoder = Decoder::new();
        proof {
            lemma_decode_rest(input);
        }
        loop
            invariant
                decoder@.wf(),
                input == (*old(src))@,
                decode(input) == decoder@.outcome((*src)@),
                decode(input).result is Ok ==> decode(input).rest.len() < input.len(),
            decreases (*src)@.len(),
        {
            match decoder.step(src) {
                Progress::More => {},
                Progress::Done(value) => {
                    return Ok(value);
                },
                Progress::Failed(e) => {
                    return Err(e);
                },
            }
        }
    }
}

} // verus!
