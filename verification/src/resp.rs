//! The wire format: typed values, their encoding, and what decoding makes of
//! a stream of bytes.

use crate::decimal::{
    i64_of, read_i64, read_usize, text_of, usize_of, write_i64, write_usize, MINUS,
};
use crate::text::{text_after_tag, text_from};
use vstd::prelude::*;
use vstd::slice::slice_subrange;
use vstd::utf8::{decode_utf8, encode_utf8, valid_utf8};

verus! {

/// Carriage return, the first byte of the line terminator.
pub const CR: u8 = 0x0d;

/// Line feed, the second byte of the line terminator.
pub const LF: u8 = 0x0a;

/// Tag of a simple string, `+`.
pub const TAG_SIMPLE: u8 = 0x2b;

/// Tag of an error, `-`.
pub const TAG_ERROR: u8 = 0x2d;

/// Tag of an integer, `:`.
pub const TAG_INTEGER: u8 = 0x3a;

/// Tag of a bulk string, `$`.
pub const TAG_BULK: u8 = 0x24;

/// Tag of an array, `*`.
pub const TAG_ARRAY: u8 = 0x2a;

/// Why a frame could not be decoded.
#[derive(Debug, Clone, Copy, PartialEq, Eq, Structural)]
pub enum Error {
    /// The input was at its end where a line had to begin.
    UnexpectedEof,
    /// A line, or the payload of a bulk string, does not end in CR LF.
    ExpectedLine,
    /// A line or a payload is not valid UTF-8.
    InvalidUtf8,
    /// An integer, a length or a count is not a decimal number that fits.
    InvalidNumber,
    /// The line is empty or begins with no known tag.
    UnknownType,
    /// The input ends before the announced payload and its terminator do.
    Truncated,
}

impl Error {
    /// The words that describe the failure.
    pub open spec fn text(self) -> Seq<char> {
        match self {
            Error::UnexpectedEof => "unexpected eof"@,
            Error::ExpectedLine => "expected line"@,
            Error::InvalidUtf8 => "expected utf-8"@,
            Error::InvalidNumber => "invalid number"@,
            Error::UnknownType => "unknown type"@,
            Error::Truncated => "early eof"@,
        }
    }

    /// The words that describe the failure, as a string.
    pub fn message(&self) -> (r: String)
        ensures
            r@ == self.text(),
    {
        let words: &str = match self {
            Error::UnexpectedEof => "unexpected eof",
            Error::ExpectedLine => "expected line",
            Error::InvalidUtf8 => "expected utf-8",
            Error::InvalidNumber => "invalid number",
            Error::UnknownType => "unknown type",
            Error::Truncated => "early eof",
        };
        words.to_owned()
    }

    /// Whether the failure is the end of the stream, on which a connection
    /// is closed; every other failure leaves it open.
    pub fn is_eof(&self) -> (r: bool)
        ensures
            r == (*self == Error::UnexpectedEof),
    {
        match self {
            Error::UnexpectedEof => true,
            _ => false,
        }
    }
}

/// A protocol value.
#[derive(Debug, PartialEq)]
pub enum Type {
    SimpleString(String),
    Error(String),
    Integer(i64),
    BulkString(String),
    Null,
    Array(Vec<Type>),
}

/// What a [`Type`] stands for: the same tree with texts as sequences of
/// characters.
pub enum Value {
    SimpleString(Seq<char>),
    Error(Seq<char>),
    Integer(i64),
    BulkString(Seq<char>),
    Null,
    Array(Seq<Value>),
}

impl View for Type {
    type V = Value;

    open spec fn view(&self) -> Value
        decreases self,
    {
        match self {
            Type::SimpleString(s) => Value::SimpleString(s@),
            Type::Error(s) => Value::Error(s@),
            Type::Integer(n) => Value::Integer(*n),
            Type::BulkString(s) => Value::BulkString(s@),
            Type::Null => Value::Null,
            Type::Array(items) => Value::Array(views(items@)),
        }
    }
}

impl Clone for Type {
    fn clone(&self) -> (r: Type)
        ensures
            r@ == self@,
        decreases self,
    {
        match self {
            Type::SimpleString(s) => Type::SimpleString(s.clone()),
            Type::Error(s) => Type::Error(s.clone()),
            Type::Integer(n) => Type::Integer(*n),
            Type::BulkString(s) => Type::BulkString(s.clone()),
            Type::Null => Type::Null,
            Type::Array(items) => {
                let mut copies: Vec<Type> = Vec::new();
                let mut i: usize = 0;
                while i < items.len()
                    invariant
                        i <= items.len(),
                        *self == Type::Array(*items),
                        copies@.len() == i,
                        forall|k: int| 0 <= k < i ==> (#[trigger] copies@[k])@ == items@[k]@,
                    decreases items.len() - i,
                {
                    proof {
                        assert(decreases_to!(*self => self->Array_0));
                        assert(decreases_to!(*items => items[i as int]));
                    }
                    let copy: Type = items[i].clone();
                    copies.push(copy);
                    i = i + 1;
                }
                proof {
                    lemma_views(items@);
                    lemma_views(copies@);
                    assert(views(copies@) =~= views(items@));
                }
                Type::Array(copies)
            },
        }
    }
}

/// The views of `items`, in order.
pub open spec fn views(items: Seq<Type>) -> Seq<Value>
    decreases items,
{
    if items.len() == 0 {
        Seq::empty()
    } else {
        views(items.drop_last()).push(items.last()@)
    }
}

/// `views` keeps the length and views each item in place.
pub proof fn lemma_views(items: Seq<Type>)
    ensures
        views(items).len() == items.len(),
        forall|k: int| 0 <= k < items.len() ==> (#[trigger] views(items)[k]) == items[k]@,
    decreases items.len(),
{
    if items.len() > 0 {
        lemma_views(items.drop_last());
        assert(views(items) =~= views(items.drop_last()).push(items.last()@));
    } else {
        assert(views(items) =~= Seq::<Value>::empty());
    }
}

/// The two bytes that end every line and every payload.
pub open spec fn crlf() -> Seq<u8> {
    seq![CR, LF]
}

/// The body of both null forms, `-1`.
pub open spec fn null_body() -> Seq<u8> {
    seq![MINUS, 0x31u8]
}

/// A header line: the tag, the body and the terminator.
pub open spec fn line(tag: u8, body: Seq<u8>) -> Seq<u8> {
    seq![tag] + body + crlf()
}

/// The bytes of one frame.
pub open spec fn encode(v: Value) -> Seq<u8>
    decreases v,
{
    match v {
        Value::SimpleString(s) => line(TAG_SIMPLE, encode_utf8(s)),
        Value::Error(s) => line(TAG_ERROR, encode_utf8(s)),
        Value::Integer(n) => line(TAG_INTEGER, text_of(n as int)),
        Value::BulkString(s) => line(TAG_BULK, text_of(encode_utf8(s).len() as int)) + encode_utf8(
            s,
        ) + crlf(),
        Value::Null => line(TAG_BULK, null_body()),
        Value::Array(items) => line(TAG_ARRAY, text_of(items.len() as int)) + encode_all(items),
    }
}

/// The frames of `items`, one after the other.
pub open spec fn encode_all(items: Seq<Value>) -> Seq<u8>
    decreases items,
{
    if items.len() == 0 {
        Seq::empty()
    } else {
        encode_all(items.drop_last()) + encode(items.last())
    }
}

/// The outcome of taking something off the front of an input: what was
/// made of it, and the input that is left.
pub struct Decoded<T> {
    pub result: Result<T, Error>,
    pub rest: Seq<u8>,
}

/// Whether the first line feed of `s` stands at `i`.
pub open spec fn is_first_lf(s: Seq<u8>, i: int) -> bool {
    &&& 0 <= i < s.len()
    &&& s[i] == LF
    &&& forall|j: int| 0 <= j < i ==> s[j] != LF
}

/// How many bytes the first line of `s` takes: up to and with the first line
/// feed, or all of `s` where it has none.
pub open spec fn line_end(s: Seq<u8>) -> int {
    if exists|i: int| is_first_lf(s, i) {
        (choose|i: int| is_first_lf(s, i)) + 1
    } else {
        s.len() as int
    }
}

/// Reading one line: its bytes without the terminator.
///
/// The line is taken off the input whatever is wrong with it. It must end in
/// CR LF, and be valid UTF-8 as a whole.
pub open spec fn decode_line(s: Seq<u8>) -> Decoded<Seq<u8>> {
    let n = line_end(s);
    let rest = s.subrange(n, s.len() as int);
    if s.len() == 0 {
        Decoded { result: Err(Error::UnexpectedEof), rest: s }
    } else if n < 2 || s[n - 2] != CR || s[n - 1] != LF {
        Decoded { result: Err(Error::ExpectedLine), rest }
    } else if !valid_utf8(s.subrange(0, n - 2)) {
        Decoded { result: Err(Error::InvalidUtf8), rest }
    } else {
        Decoded { result: Ok(s.subrange(0, n - 2)), rest }
    }
}

/// Reading the payload of a bulk string announced as `len` bytes.
///
/// Input that ends before `len + 2` bytes is used up. Otherwise that many
/// bytes are taken; the last two must be CR LF and the others valid UTF-8.
pub open spec fn decode_payload(s: Seq<u8>, len: nat) -> Decoded<Value> {
    let n = len as int;
    if s.len() < n + 2 {
        Decoded { result: Err(Error::Truncated), rest: Seq::empty() }
    } else {
        let rest = s.subrange(n + 2, s.len() as int);
        let payload = s.subrange(0, n);
        if s[n] != CR || s[n + 1] != LF {
            Decoded { result: Err(Error::ExpectedLine), rest }
        } else if !valid_utf8(payload) {
            Decoded { result: Err(Error::InvalidUtf8), rest }
        } else {
            Decoded { result: Ok(Value::BulkString(decode_utf8(payload))), rest }
        }
    }
}

/// The array of the items that `d` holds.
pub open spec fn as_array(d: Decoded<Seq<Value>>) -> Decoded<Value> {
    Decoded {
        result: match d.result {
            Ok(vs) => Ok(Value::Array(vs)),
            Err(e) => Err(e),
        },
        rest: d.rest,
    }
}

/// What a header line announces.
pub enum Header {
    /// A value that the line holds whole.
    Whole(Value),
    /// A bulk string, whose payload of so many bytes follows.
    Bulk(nat),
    /// An array, whose items, so many of them, follow.
    Array(nat),
}

/// What the header line `content`, read without its terminator, announces:
/// its first byte is the tag, and the rest is read as the tag asks.
pub open spec fn header(content: Seq<u8>) -> Result<Header, Error> {
    if content.len() == 0 {
        Err(Error::UnknownType)
    } else {
        let tag = content[0];
        let body = content.drop_first();
        if tag == TAG_SIMPLE {
            Ok(Header::Whole(Value::SimpleString(decode_utf8(body))))
        } else if tag == TAG_ERROR {
            Ok(Header::Whole(Value::Error(decode_utf8(body))))
        } else if tag == TAG_INTEGER {
            match i64_of(body) {
                Some(n) => Ok(Header::Whole(Value::Integer(n))),
                None => Err(Error::InvalidNumber),
            }
        } else if tag == TAG_BULK {
            if body == null_body() {
                Ok(Header::Whole(Value::Null))
            } else {
                match usize_of(body) {
                    Some(len) => Ok(Header::Bulk(len as nat)),
                    None => Err(Error::InvalidNumber),
                }
            }
        } else if tag == TAG_ARRAY {
            if body == null_body() {
                Ok(Header::Whole(Value::Null))
            } else {
                match usize_of(body) {
                    Some(count) => Ok(Header::Array(count as nat)),
                    None => Err(Error::InvalidNumber),
                }
            }
        } else {
            Err(Error::UnknownType)
        }
    }
}

/// Decoding one frame off the front of `s`: its header line, and then what
/// that line announces.
pub open spec fn decode(s: Seq<u8>) -> Decoded<Value>
    decreases s.len(), 0nat, 0nat,
{
    let first = decode_line(s);
    match first.result {
        Err(e) => Decoded { result: Err(e), rest: first.rest },
        Ok(content) => match header(content) {
            Err(e) => Decoded { result: Err(e), rest: first.rest },
            Ok(h) => decode_body(h, first.rest),
        },
    }
}

/// The frame whose header line announced `h`, and which goes on in `rest`.
pub open spec fn decode_body(h: Header, rest: Seq<u8>) -> Decoded<Value>
    decreases rest.len(), 1nat, 0nat,
{
    match h {
        Header::Whole(v) => Decoded { result: Ok(v), rest },
        Header::Bulk(len) => decode_payload(rest, len),
        Header::Array(count) => as_array(decode_items(rest, count)),
    }
}

/// Decoding `count` frames, one after the other, off the front of `s`. The
/// first failure ends it.
///
/// A frame takes at least its header line off the input
/// ([`crate::laws::lemma_decode_rest`]), so the test on the lengths always
/// holds; it is what shows that the definition ends.
pub open spec fn decode_items(s: Seq<u8>, count: nat) -> Decoded<Seq<Value>>
    decreases s.len(), 0nat, count + 1,
{
    if count == 0 {
        Decoded { result: Ok(Seq::empty()), rest: s }
    } else {
        let first = decode(s);
        match first.result {
            Err(e) => Decoded { result: Err(e), rest: first.rest },
            Ok(v) => if first.rest.len() < s.len() {
                let others = decode_items(first.rest, (count - 1) as nat);
                match others.result {
                    Ok(vs) => Decoded { result: Ok(seq![v] + vs), rest: others.rest },
                    Err(e) => Decoded { result: Err(e), rest: others.rest },
                }
            } else {
                Decoded { result: Err(Error::UnexpectedEof), rest: first.rest }
            },
        }
    }
}

/// `d` behind the items `done`, which were decoded before it.
pub open spec fn after(done: Seq<Value>, d: Decoded<Seq<Value>>) -> Decoded<Seq<Value>> {
    Decoded {
        result: match d.result {
            Ok(vs) => Ok(done + vs),
            Err(e) => Err(e),
        },
        rest: d.rest,
    }
}

/// What `r` stands for.
pub open spec fn result_view(r: Result<Type, Error>) -> Result<Value, Error> {
    match r {
        Ok(t) => Ok(t@),
        Err(e) => Err(e),
    }
}

/// Finds where the first line of `s` ends.
pub(crate) fn find_line_end(s: &[u8]) -> (end: usize)
    ensures
        end == line_end(s@),
        end <= s@.len(),
        s@.len() > 0 ==> end >= 1,
{
    let n: usize = s.len();
    let mut i: usize = 0;
    while i < n && s[i] != LF
        invariant
            i <= n,
            n == s@.len(),
            forall|j: int| 0 <= j < i ==> s@[j] != LF,
        decreases n - i,
    {
        i = i + 1;
    }
    let end: usize = if i < n {
        i + 1
    } else {
        n
    };
    proof {
        if i < n {
            assert(is_first_lf(s@, i as int));
            let c = choose|c: int| is_first_lf(s@, c);
            assert(is_first_lf(s@, c));
            if c < i {
                assert(s@[c] != LF);
            }
            if i < c {
                assert(s@[i as int] != LF);
            }
        } else {
            assert forall|c: int| !is_first_lf(s@, c) by {
                if 0 <= c < n {
                    assert(s@[c] != LF);
                }
            }
        }
    }
    end
}

/// Takes one line off `src` and gives its text without the terminator.
pub(crate) fn read_line(src: &mut &[u8]) -> (r: Result<String, Error>)
    ensures
        (*final(src))@ == decode_line((*old(src))@).rest,
        match r {
            Ok(text) => decode_line((*old(src))@).result == Ok::<Seq<u8>, Error>(
                encode_utf8(text@),
            ),
            Err(e) => decode_line((*old(src))@).result == Err::<Seq<u8>, Error>(e),
        },
{
    let s: &[u8] = *src;
    let n: usize = s.len();
    if n == 0 {
        return Err(Error::UnexpectedEof);
    }
    let end: usize = find_line_end(s);
    *src = slice_subrange(s, end, n);
    if end < 2 || s[end - 2] != CR || s[end - 1] != LF {
        return Err(Error::ExpectedLine);
    }
    match text_from(slice_subrange(s, 0, end - 2)) {
        Some(text) => Ok(text),
        None => Err(Error::InvalidUtf8),
    }
}

/// Takes the payload of a bulk string of `len` bytes, and its terminator,
/// off `src`.
pub(crate) fn read_payload(src: &mut &[u8], len: usize) -> (r: Result<Type, Error>)
    ensures
        result_view(r) == decode_payload((*old(src))@, len as nat).result,
        (*final(src))@ == decode_payload((*old(src))@, len as nat).rest,
{
    let s: &[u8] = *src;
    let n: usize = s.len();
    if n < 2 || n - 2 < len {
        *src = slice_subrange(s, n, n);
        assert((*src)@ =~= Seq::<u8>::empty());
        return Err(Error::Truncated);
    }
    *src = slice_subrange(s, len + 2, n);
    if s[len] != CR || s[len + 1] != LF {
        return Err(Error::ExpectedLine);
    }
    match text_from(slice_subrange(s, 0, len)) {
        Some(text) => Ok(Type::BulkString(text)),
        None => Err(Error::InvalidUtf8),
    }
}

/// Whether `body` is `-1`, the body of both null forms.
fn is_null_body(body: &[u8]) -> (r: bool)
    ensures
        r == (body@ == null_body()),
{
    let r: bool = body.len() == 2 && body[0] == MINUS && body[1] == 0x31;
    proof {
        if r {
            assert(body@ =~= null_body());
        } else if body@.len() == 2 {
            assert(null_body()[0] == MINUS);
            assert(null_body()[1] == 0x31);
        }
    }
    r
}

/// What a header line announces; see [`Header`].
#[derive(Debug, PartialEq)]
pub enum Head {
    Whole(Type),
    Bulk(usize),
    Array(usize),
}

impl View for Head {
    type V = Header;

    open spec fn view(&self) -> Header {
        match self {
            Head::Whole(t) => Header::Whole(t@),
            Head::Bulk(len) => Header::Bulk(*len as nat),
            Head::Array(count) => Header::Array(*count as nat),
        }
    }
}

/// What `r` stands for.
pub open spec fn head_view(r: Result<Head, Error>) -> Result<Header, Error> {
    match r {
        Ok(h) => Ok(h@),
        Err(e) => Err(e),
    }
}

/// Reads what the header line `text`, given without its terminator,
/// announces.
pub fn read_head(text: &String) -> (r: Result<Head, Error>)
    ensures
        head_view(r) == header(encode_utf8(text@)),
{
    let content: &[u8] = text.as_str().as_bytes();
    if content.len() == 0 {
        return Err(Error::UnknownType);
    }
    let tag: u8 = content[0];
    let body: &[u8] = slice_subrange(content, 1, content.len());
    assert(body@ =~= content@.drop_first());
    if tag == TAG_SIMPLE {
        Ok(Head::Whole(Type::SimpleString(text_after_tag(text))))
    } else if tag == TAG_ERROR {
        Ok(Head::Whole(Type::Error(text_after_tag(text))))
    } else if tag == TAG_INTEGER {
        match read_i64(body) {
            Some(n) => Ok(Head::Whole(Type::Integer(n))),
            None => Err(Error::InvalidNumber),
        }
    } else if tag == TAG_BULK {
        if is_null_body(body) {
            return Ok(Head::Whole(Type::Null));
        }
        match read_usize(body) {
            Some(len) => Ok(Head::Bulk(len)),
            None => Err(Error::InvalidNumber),
        }
    } else if tag == TAG_ARRAY {
        if is_null_body(body) {
            return Ok(Head::Whole(Type::Null));
        }
        match read_usize(body) {
            Some(count) => Ok(Head::Array(count)),
            None => Err(Error::InvalidNumber),
        }
    } else {
        Err(Error::UnknownType)
    }
}

/// Appends `bytes` to `dst`.
fn append(dst: &mut Vec<u8>, bytes: &[u8])
    ensures
        final(dst)@ == old(dst)@ + bytes@,
{
    dst.extend_from_slice(bytes);
    assert(final(dst)@ =~= old(dst)@ + bytes@);
}

/// Appends a header line: `tag`, `body` and the terminator.
fn write_line(dst: &mut Vec<u8>, tag: u8, body: &[u8])
    ensures
        final(dst)@ == old(dst)@ + line(tag, body@),
{
    dst.push(tag);
    append(dst, body);
    dst.push(CR);
    dst.push(LF);
    assert(final(dst)@ =~= old(dst)@ + line(tag, body@));
}

impl Type {
    /// Decodes one frame off the front of `src`, and leaves in `src` the
    /// input behind what was read.
    pub fn read(src: &mut &[u8]) -> (r: Result<Type, Error>)
        ensures
            result_view(r) == decode((*old(src))@).result,
            (*final(src))@ == decode((*old(src))@).rest,
            r is Ok ==> (*final(src))@.len() < (*old(src))@.len(),
        decreases (*old(src))@.len(),
    {
        let ghost input = (*src)@;
        let text: String = match read_line(src) {
            Ok(text) => text,
            Err(e) => {
                return Err(e);
            },
        };
        let count: usize = match read_head(&text) {
            Ok(Head::Whole(value)) => {
                return Ok(value);
            },
            Ok(Head::Bulk(len)) => {
                return read_payload(src, len);
            },
            Ok(Head::Array(count)) => count,
            Err(e) => {
                return Err(e);
            },
        };
        let ghost start = (*src)@;
        let mut items: Vec<Type> = Vec::new();
        let mut k: usize = 0;
        while k < count
            invariant
                k <= count,
                items@.len() == k,
                input == (*old(src))@,
                (*src)@.len() <= start.len() < input.len(),
                decode(input) == as_array(decode_items(start, count as nat)),
                decode_items(start, count as nat) == after(
                    views(items@),
                    decode_items((*src)@, (count - k) as nat),
                ),
            decreases count - k,
        {
            let ghost done_items = items@;
            let ghost done = views(items@);
            match Type::read(src) {
                Ok(item) => {
                    items.push(item);
                    proof {
                        let others = decode_items((*src)@, (count - k - 1) as nat);
                        assert(items@.drop_last() =~= done_items);
                        assert(views(items@) =~= done.push(item@));
                        assert(after(done, after(seq![item@], others)) == after(
                            views(items@),
                            others,
                        )) by {
                            if let Ok(vs) = others.result {
                                assert(done + (seq![item@] + vs) =~= views(items@) + vs);
                            }
                        }
                    }
                },
                Err(e) => {
                    return Err(e);
                },
            }
            k = k + 1;
        }
        proof {
            assert(views(items@) + Seq::<Value>::empty() =~= views(items@));
        }
        Ok(Type::Array(items))
    }

    /// Appends the frame of `self` to `dst`.
    pub fn write(self, dst: &mut Vec<u8>)
        ensures
            final(dst)@ == old(dst)@ + encode(self@),
    {
        self.write_buf(dst);
    }

    /// Appends the frame of `self` to `dst`: one line for a scalar, and for
    /// an array its header line and then its items in order.
    fn write_buf(&self, dst: &mut Vec<u8>)
        ensures
            final(dst)@ == old(dst)@ + encode(self@),
        decreases self,
    {
        match self {
            Type::SimpleString(s) => {
                write_line(dst, TAG_SIMPLE, s.as_str().as_bytes());
            },
            Type::Error(s) => {
                write_line(dst, TAG_ERROR, s.as_str().as_bytes());
            },
            Type::Integer(n) => {
                let mut text: Vec<u8> = Vec::new();
                write_i64(&mut text, *n);
                write_line(dst, TAG_INTEGER, text.as_slice());
            },
            Type::BulkString(s) => {
                let buf: &[u8] = s.as_str().as_bytes();
                let mut text: Vec<u8> = Vec::new();
                write_usize(&mut text, buf.len());
                write_line(dst, TAG_BULK, text.as_slice());
                append(dst, buf);
                dst.push(CR);
                dst.push(LF);
                assert(final(dst)@ =~= old(dst)@ + encode(self@));
            },
            Type::Array(elements) => {
                let mut text: Vec<u8> = Vec::new();
                write_usize(&mut text, elements.len());
                write_line(dst, TAG_ARRAY, text.as_slice());
                proof {
                    lemma_views(elements@);
                }
                let mut i: usize = 0;
                while i < elements.len()
                    invariant
                        i <= elements.len(),
                        *self == Type::Array(*elements),
                        dst@ == old(dst)@ + line(TAG_ARRAY, text_of(elements@.len() as int))
                            + encode_all(views(elements@).take(i as int)),
                    decreases elements.len() - i,
                {
                    proof {
                        assert(decreases_to!(*self => self->Array_0));
                        assert(decreases_to!(*elements => elements[i as int]));
                        lemma_views(elements@);
                        let vs = views(elements@);
                        assert(vs.take(i + 1).drop_last() =~= vs.take(i as int));
                        assert(vs.take(i + 1).last() == elements@[i as int]@);
                    }
                    elements[i].write_buf(dst);
                    i = i + 1;
                }
                proof {
                    let vs = views(elements@);
                    assert(vs.take(i as int) =~= vs);
                }
            },
            Type::Null => {
                let body: [u8; 2] = [MINUS, 0x31];
                write_line(dst, TAG_BULK, body.as_slice());
                assert(body@ =~= null_body());
            },
        }
    }
}

} // verus!
