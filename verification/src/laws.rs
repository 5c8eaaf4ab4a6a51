//! What holds of the wire format as a whole: a frame that was written is
//! read back, frames written one after the other are read back one by one,
//! and decoding never gives input back that it did not get.

use crate::decimal::{
    is_digit, lemma_i64_round_trip, lemma_text_of_bytes, lemma_usize_round_trip, text_of,
    usize_of, MINUS,
};
use crate::resp::{
    after, crlf, decode, decode_body, decode_items, decode_line, decode_payload, encode,
    encode_all, header, is_first_lf, line, line_end, null_body, Decoded, Error, Header, Value,
    CR, LF, TAG_ARRAY, TAG_BULK, TAG_ERROR, TAG_INTEGER, TAG_SIMPLE,
};
use vstd::prelude::*;
use vstd::utf8::{
    char_is_scalar, char_u32_cast, decode_utf8, encode_scalar, encode_utf8,
    encode_utf8_decode_utf8, encode_utf8_valid_utf8, is_scalar, partial_valid_utf8,
    partial_valid_utf8_extend_ascii_block, valid_utf8, valid_utf8_concat,
};

verus! {

/// Whether no byte of `s` is a line feed.
pub open spec fn no_lf(s: Seq<u8>) -> bool {
    forall|i: int| 0 <= i < s.len() ==> #[trigger] s[i] != LF
}

/// Whether no character of `s` is a line feed.
pub open spec fn no_line_feed(s: Seq<char>) -> bool {
    forall|i: int| 0 <= i < s.len() ==> #[trigger] s[i] != '\n'
}

/// Whether the frame of `v` says what `v` is: the text of a simple string or
/// of an error has no line feed, and every length and count fits a `usize`.
pub open spec fn sendable(v: Value) -> bool
    decreases v,
{
    match v {
        Value::SimpleString(s) => no_line_feed(s),
        Value::Error(s) => no_line_feed(s),
        Value::Integer(_) => true,
        Value::BulkString(s) => encode_utf8(s).len() <= usize::MAX,
        Value::Null => true,
        Value::Array(items) => items.len() <= usize::MAX && forall|i: int|
            0 <= i < items.len() ==> sendable(#[trigger] items[i]),
    }
}

/// The encoding of a scalar other than the line feed holds no line feed.
proof fn lemma_scalar_no_lf(c: u32)
    requires
        is_scalar(c),
        c != 0x0a,
    ensures
        no_lf(encode_scalar(c)),
{
    assert(c <= 0x7f ==> (c & 0x7F) as u8 != 0x0au8) by (bit_vector)
        requires
            c != 0x0a,
    ;
    assert(0xC0u8 | ((c >> 6) & 0x1F) as u8 != 0x0au8) by (bit_vector);
    assert(0xE0u8 | ((c >> 12) & 0x0F) as u8 != 0x0au8) by (bit_vector);
    assert(0xF0u8 | ((c >> 18) & 0x7) as u8 != 0x0au8) by (bit_vector);
    assert(0x80u8 | (c & 0x3F) as u8 != 0x0au8) by (bit_vector);
    assert(0x80u8 | ((c >> 6) & 0x3F) as u8 != 0x0au8) by (bit_vector);
    assert(0x80u8 | ((c >> 12) & 0x3F) as u8 != 0x0au8) by (bit_vector);
}

/// A text without a line feed is encoded without one.
pub proof fn lemma_text_no_lf(s: Seq<char>)
    requires
        no_line_feed(s),
    ensures
        no_lf(encode_utf8(s)),
    decreases s.len(),
{
    if s.len() > 0 {
        let head = encode_scalar(s[0] as u32);
        let tail = encode_utf8(s.drop_first());
        assert(s[0] != '\n');
        char_is_scalar(s[0]);
        assert(s[0] as u32 != 0x0a) by {
            if s[0] as u32 == 0x0a {
                char_u32_cast(s[0], 0x0au32);
                char_u32_cast('\n', 0x0au32);
            }
        }
        lemma_scalar_no_lf(s[0] as u32);
        assert forall|i: int| 0 <= i < s.drop_first().len() implies #[trigger] s.drop_first()[i]
            != '\n' by {
            assert(s.drop_first()[i] == s[i + 1]);
        }
        lemma_text_no_lf(s.drop_first());
        assert forall|i: int| 0 <= i < encode_utf8(s).len() implies #[trigger] encode_utf8(s)[i]
            != LF by {
            if i < head.len() {
                assert(encode_utf8(s)[i] == head[i]);
            } else {
                assert(encode_utf8(s)[i] == tail[i - head.len()]);
            }
        }
    }
}

/// Bytes below 128 are valid UTF-8.
pub proof fn lemma_ascii_valid(s: Seq<u8>)
    requires
        forall|i: int| 0 <= i < s.len() ==> #[trigger] s[i] < 0x80,
    ensures
        valid_utf8(s),
{
    assert(s.subrange(0, 0) =~= Seq::<u8>::empty());
    assert(partial_valid_utf8(s, 0));
    partial_valid_utf8_extend_ascii_block(s, 0, s.len() as int);
    assert(s.subrange(0, s.len() as int) =~= s);
}

/// The text of a number has no line feed and is valid UTF-8.
pub proof fn lemma_number_text(i: int)
    ensures
        no_lf(text_of(i)),
        valid_utf8(text_of(i)),
        text_of(i).len() > 0,
{
    lemma_text_of_bytes(i);
    let t = text_of(i);
    assert forall|k: int| 0 <= k < t.len() implies #[trigger] t[k] < 0x80 && t[k] != LF by {
        assert(is_digit(t[k]) || t[k] == MINUS);
    }
    lemma_ascii_valid(t);
}

/// Where the first line ends: behind the terminator that follows a head
/// without a line feed.
pub proof fn lemma_line_end(head: Seq<u8>, tail: Seq<u8>)
    requires
        no_lf(head),
    ensures
        line_end(head + crlf() + tail) == head.len() + 2,
{
    let s = head + crlf() + tail;
    let at = head.len() as int + 1;
    assert(s[at] == LF);
    assert forall|j: int| 0 <= j < at implies s[j] != LF by {
        if j < head.len() {
            assert(s[j] == head[j]);
        } else {
            assert(s[j] == CR);
        }
    }
    assert(is_first_lf(s, at));
    let c = choose|c: int| is_first_lf(s, c);
    assert(is_first_lf(s, c));
    if c < at {
        assert(s[c] != LF);
    }
    if at < c {
        assert(s[at] != LF);
    }
}

/// A line that was written is read back, and the input behind it is left.
pub proof fn lemma_decode_line(head: Seq<u8>, tail: Seq<u8>)
    requires
        no_lf(head),
        valid_utf8(head),
    ensures
        decode_line(head + crlf() + tail) == (Decoded::<Seq<u8>> { result: Ok(head), rest: tail }),
{
    let s = head + crlf() + tail;
    lemma_line_end(head, tail);
    let n = head.len() as int + 2;
    assert(s[n - 2] == CR);
    assert(s[n - 1] == LF);
    assert(s.subrange(0, n - 2) =~= head);
    assert(s.subrange(n, s.len() as int) =~= tail);
}

/// A header line that was written is read back as its tag and its body.
proof fn lemma_decode_header(tag: u8, body: Seq<u8>, tail: Seq<u8>)
    requires
        tag < 0x80,
        tag != LF,
        no_lf(body),
        valid_utf8(body),
    ensures
        decode_line(line(tag, body) + tail) == (Decoded::<Seq<u8>> {
            result: Ok(seq![tag] + body),
            rest: tail,
        }),
        (seq![tag] + body).len() > 0,
        (seq![tag] + body)[0] == tag,
        (seq![tag] + body).drop_first() == body,
{
    let head = seq![tag] + body;
    assert(valid_utf8(seq![tag])) by {
        reveal_with_fuel(valid_utf8, 2);
        assert(seq![tag].subrange(1, 1) =~= Seq::<u8>::empty());
    }
    valid_utf8_concat(seq![tag], body);
    assert forall|i: int| 0 <= i < head.len() implies #[trigger] head[i] != LF by {
        if i > 0 {
            assert(head[i] == body[i - 1]);
        }
    }
    lemma_decode_line(head, tail);
    assert(head.drop_first() =~= body);
    assert(line(tag, body) + tail =~= head + crlf() + tail);
}

/// The frames of a sequence are the frame of its first item and then the
/// frames of the others.
pub proof fn lemma_encode_all_front(v: Value, vs: Seq<Value>)
    ensures
        encode_all(seq![v] + vs) == encode(v) + encode_all(vs),
    decreases vs.len(),
{
    let all = seq![v] + vs;
    if vs.len() == 0 {
        assert(all.drop_last() =~= Seq::<Value>::empty());
        assert(encode_all(all.drop_last()) =~= Seq::<u8>::empty());
        assert(encode_all(vs) =~= Seq::<u8>::empty());
        assert(encode_all(all) =~= encode(v) + encode_all(vs));
    } else {
        lemma_encode_all_front(v, vs.drop_last());
        assert(all.drop_last() =~= seq![v] + vs.drop_last());
        assert(all.last() == vs.last());
        assert(encode_all(all) =~= encode(v) + encode_all(vs));
    }
}

/// A frame is never empty.
pub proof fn lemma_encode_not_empty(v: Value)
    ensures
        encode(v).len() >= 3,
{
}

/// A line of text that was written is read back.
proof fn lemma_round_trip_text(tag: u8, s: Seq<char>, tail: Seq<u8>)
    requires
        tag == TAG_SIMPLE || tag == TAG_ERROR,
        no_line_feed(s),
    ensures
        decode_line(line(tag, encode_utf8(s)) + tail) == (Decoded::<Seq<u8>> {
            result: Ok(seq![tag] + encode_utf8(s)),
            rest: tail,
        }),
        (seq![tag] + encode_utf8(s)).len() > 0,
        (seq![tag] + encode_utf8(s))[0] == tag,
        (seq![tag] + encode_utf8(s)).drop_first() == encode_utf8(s),
        decode_utf8(encode_utf8(s)) == s,
{
    lemma_text_no_lf(s);
    encode_utf8_valid_utf8(s);
    encode_utf8_decode_utf8(s);
    lemma_decode_header(tag, encode_utf8(s), tail);
}

/// A header line that holds a length or a count is read back as that number.
proof fn lemma_round_trip_count(tag: u8, n: usize, tail: Seq<u8>)
    requires
        tag == TAG_BULK || tag == TAG_ARRAY,
    ensures
        decode_line(line(tag, text_of(n as int)) + tail) == (Decoded::<Seq<u8>> {
            result: Ok(seq![tag] + text_of(n as int)),
            rest: tail,
        }),
        (seq![tag] + text_of(n as int)).len() > 0,
        (seq![tag] + text_of(n as int))[0] == tag,
        (seq![tag] + text_of(n as int)).drop_first() == text_of(n as int),
        text_of(n as int) != null_body(),
        usize_of(text_of(n as int)) == Some(n),
{
    let body = text_of(n as int);
    lemma_number_text(n as int);
    lemma_text_of_bytes(n as int);
    lemma_usize_round_trip(n);
    lemma_decode_header(tag, body, tail);
    assert(is_digit(body[0]));
    assert(null_body()[0] == MINUS);
}

/// The payload of a bulk string that was written is read back.
proof fn lemma_round_trip_payload(s: Seq<char>, tail: Seq<u8>)
    ensures
        decode_payload(encode_utf8(s) + crlf() + tail, encode_utf8(s).len()) == (Decoded::<
            Value,
        > { result: Ok(Value::BulkString(s)), rest: tail }),
{
    let payload = encode_utf8(s);
    let len = payload.len() as int;
    let behind = payload + crlf() + tail;
    encode_utf8_valid_utf8(s);
    encode_utf8_decode_utf8(s);
    assert(behind.subrange(0, len) =~= payload);
    assert(behind.subrange(len + 2, behind.len() as int) =~= tail);
    assert(behind[len] == CR);
    assert(behind[len + 1] == LF);
}

/// A frame whose header line reads as `content` is decoded as that line
/// announces.
proof fn lemma_decode_by_tag(s: Seq<u8>, content: Seq<u8>, rest: Seq<u8>)
    requires
        decode_line(s) == (Decoded::<Seq<u8>> { result: Ok(content), rest }),
    ensures
        decode(s) == match header(content) {
            Err(e) => Decoded::<Value> { result: Err(e), rest },
            Ok(h) => decode_body(h, rest),
        },
{
}

/// A frame is its header line and then what follows it.
proof fn lemma_frame_parts(head: Seq<u8>, behind: Seq<u8>, tail: Seq<u8>)
    ensures
        (head + behind) + tail == head + (behind + tail),
{
    assert((head + behind) + tail =~= head + (behind + tail));
}

/// A simple string or an error that was written is read back.
proof fn lemma_round_trip_simple(v: Value, tail: Seq<u8>)
    requires
        v is SimpleString || v is Error,
        sendable(v),
    ensures
        decode(encode(v) + tail) == (Decoded::<Value> { result: Ok(v), rest: tail }),
{
    match v {
        Value::SimpleString(s) => {
            lemma_round_trip_text(TAG_SIMPLE, s, tail);
            lemma_decode_by_tag(encode(v) + tail, seq![TAG_SIMPLE] + encode_utf8(s), tail);
        },
        Value::Error(s) => {
            lemma_round_trip_text(TAG_ERROR, s, tail);
            lemma_decode_by_tag(encode(v) + tail, seq![TAG_ERROR] + encode_utf8(s), tail);
        },
        _ => {},
    }
}

/// An integer that was written is read back.
proof fn lemma_round_trip_integer(n: i64, tail: Seq<u8>)
    ensures
        decode(encode(Value::Integer(n)) + tail) == (Decoded::<Value> {
            result: Ok(Value::Integer(n)),
            rest: tail,
        }),
{
    let body = text_of(n as int);
    lemma_number_text(n as int);
    lemma_i64_round_trip(n);
    lemma_decode_header(TAG_INTEGER, body, tail);
    lemma_decode_by_tag(encode(Value::Integer(n)) + tail, seq![TAG_INTEGER] + body, tail);
}

/// A bulk string that was written is read back.
proof fn lemma_round_trip_bulk(s: Seq<char>, tail: Seq<u8>)
    requires
        encode_utf8(s).len() <= usize::MAX,
    ensures
        decode(encode(Value::BulkString(s)) + tail) == (Decoded::<Value> {
            result: Ok(Value::BulkString(s)),
            rest: tail,
        }),
{
    let payload = encode_utf8(s);
    let body = text_of(payload.len() as int);
    let behind = payload + crlf() + tail;
    let input = encode(Value::BulkString(s)) + tail;
    assert(input == line(TAG_BULK, body) + behind) by {
        lemma_frame_parts(line(TAG_BULK, body), payload + crlf(), tail);
        lemma_frame_parts(line(TAG_BULK, body), payload, crlf());
        lemma_frame_parts(payload, crlf(), tail);
    }
    lemma_round_trip_count(TAG_BULK, payload.len() as usize, behind);
    lemma_decode_by_tag(input, seq![TAG_BULK] + body, behind);
    lemma_round_trip_payload(s, tail);
}

/// An array is read back if its items are.
proof fn lemma_round_trip_array(items: Seq<Value>, tail: Seq<u8>)
    requires
        items.len() <= usize::MAX,
        decode_items(encode_all(items) + tail, items.len()) == (Decoded::<Seq<Value>> {
            result: Ok(items),
            rest: tail,
        }),
    ensures
        decode(encode(Value::Array(items)) + tail) == (Decoded::<Value> {
            result: Ok(Value::Array(items)),
            rest: tail,
        }),
{
    let body = text_of(items.len() as int);
    let behind = encode_all(items) + tail;
    let input = encode(Value::Array(items)) + tail;
    assert(input == line(TAG_ARRAY, body) + behind) by {
        lemma_frame_parts(line(TAG_ARRAY, body), encode_all(items), tail);
    }
    lemma_round_trip_count(TAG_ARRAY, items.len() as usize, behind);
    lemma_decode_by_tag(input, seq![TAG_ARRAY] + body, behind);
}

/// Decoding what was encoded gives the value back, and leaves what stood
/// behind the frame.
pub proof fn lemma_round_trip(v: Value, tail: Seq<u8>)
    requires
        sendable(v),
    ensures
        decode(encode(v) + tail) == (Decoded::<Value> { result: Ok(v), rest: tail }),
    decreases v,
{
    match v {
        Value::SimpleString(_) => {
            lemma_round_trip_simple(v, tail);
        },
        Value::Error(_) => {
            lemma_round_trip_simple(v, tail);
        },
        Value::Integer(n) => {
            lemma_round_trip_integer(n, tail);
        },
        Value::BulkString(s) => {
            lemma_round_trip_bulk(s, tail);
        },
        Value::Null => {
            lemma_null_forms(tail);
        },
        Value::Array(items) => {
            lemma_round_trip_all(items, tail);
            lemma_round_trip_array(items, tail);
        },
    }
}

/// Both null forms decode to the null value, and the null value is written
/// in the bulk form.
pub proof fn lemma_null_forms(tail: Seq<u8>)
    ensures
        decode(line(TAG_BULK, null_body()) + tail) == (Decoded::<Value> {
            result: Ok(Value::Null),
            rest: tail,
        }),
        decode(line(TAG_ARRAY, null_body()) + tail) == (Decoded::<Value> {
            result: Ok(Value::Null),
            rest: tail,
        }),
        encode(Value::Null) == line(TAG_BULK, null_body()),
        encode(Value::Null) =~= seq![0x24u8, 0x2du8, 0x31u8, 0x0du8, 0x0au8],
{
    lemma_null_body();
    lemma_decode_header(TAG_BULK, null_body(), tail);
    lemma_decode_header(TAG_ARRAY, null_body(), tail);
    lemma_decode_by_tag(
        line(TAG_BULK, null_body()) + tail,
        seq![TAG_BULK] + null_body(),
        tail,
    );
    lemma_decode_by_tag(
        line(TAG_ARRAY, null_body()) + tail,
        seq![TAG_ARRAY] + null_body(),
        tail,
    );
}

/// Frames written one after the other are read back one by one, in order,
/// and what stood behind them is left.
pub proof fn lemma_round_trip_all(items: Seq<Value>, tail: Seq<u8>)
    requires
        forall|i: int| 0 <= i < items.len() ==> sendable(#[trigger] items[i]),
    ensures
        decode_items(encode_all(items) + tail, items.len()) == (Decoded::<Seq<Value>> {
            result: Ok(items),
            rest: tail,
        }),
    decreases items,
{
    if items.len() == 0 {
        assert(encode_all(items) + tail =~= tail);
        assert(items =~= Seq::<Value>::empty());
    } else {
        let first = items[0];
        let others = items.drop_first();
        let behind = encode_all(others) + tail;
        assert(items =~= seq![first] + others);
        lemma_encode_all_front(first, others);
        assert(encode_all(items) + tail =~= encode(first) + behind);
        assert(sendable(first));
        lemma_round_trip(first, behind);
        lemma_encode_not_empty(first);
        assert forall|i: int| 0 <= i < others.len() implies sendable(#[trigger] others[i]) by {
            assert(others[i] == items[i + 1]);
        }
        lemma_round_trip_all(others, tail);
        assert(seq![first] + others =~= items);
    }
}

/// The body of the null forms has no line feed and is valid UTF-8.
proof fn lemma_null_body()
    ensures
        no_lf(null_body()),
        valid_utf8(null_body()),
{
    let b = null_body();
    assert forall|k: int| 0 <= k < b.len() implies #[trigger] b[k] < 0x80 && b[k] != LF by {
        if k == 0 {
        } else {
            assert(b[k] == 0x31);
        }
    }
    lemma_ascii_valid(b);
}

/// Whether `t` is what is left of `s` behind some of its first bytes.
pub open spec fn is_suffix(t: Seq<u8>, s: Seq<u8>) -> bool {
    t.len() <= s.len() && t == s.subrange(s.len() - t.len(), s.len() as int)
}

/// What is left of what is left of `c` is left of `c`.
pub proof fn lemma_suffix_trans(a: Seq<u8>, b: Seq<u8>, c: Seq<u8>)
    requires
        is_suffix(a, b),
        is_suffix(b, c),
    ensures
        is_suffix(a, c),
{
    assert(a =~= c.subrange(c.len() - a.len(), c.len() as int));
}

/// Reading a line takes bytes off the front of the input, and at least one
/// where there is any.
pub proof fn lemma_decode_line_rest(s: Seq<u8>)
    ensures
        is_suffix(decode_line(s).rest, s),
        s.len() > 0 ==> decode_line(s).rest.len() < s.len(),
        decode_line(s).result is Ok ==> decode_line(s).rest.len() + 2 <= s.len(),
        decode_line(s).result == Err::<Seq<u8>, Error>(Error::UnexpectedEof) <==> s.len() == 0,
{
    let n = line_end(s);
    if exists|i: int| is_first_lf(s, i) {
        let c = choose|i: int| is_first_lf(s, i);
        assert(is_first_lf(s, c));
    }
    assert(0 <= n <= s.len());
    assert(s.len() > 0 ==> n >= 1);
    if s.len() == 0 {
        assert(s =~= s.subrange(0, 0));
    }
}

/// Reading a payload takes bytes off the front of the input, and never
/// reports the end of the stream.
pub proof fn lemma_decode_payload_rest(s: Seq<u8>, len: nat)
    ensures
        is_suffix(decode_payload(s, len).rest, s),
        decode_payload(s, len).result != Err::<Value, Error>(Error::UnexpectedEof),
{
    let d = decode_payload(s, len);
    if s.len() < len + 2 {
        assert(d.rest =~= s.subrange(s.len() as int, s.len() as int));
    }
}

/// Decoding a frame takes bytes off the front of the input: what is left is
/// an end piece of it. A frame that was decoded took at least three bytes,
/// and the end of the stream is reported only when nothing is left.
pub proof fn lemma_decode_rest(s: Seq<u8>)
    ensures
        is_suffix(decode(s).rest, s),
        s.len() > 0 ==> decode(s).rest.len() < s.len(),
        decode(s).result is Ok ==> decode(s).rest.len() + 3 <= s.len(),
        decode(s).result == Err::<Value, Error>(Error::UnexpectedEof) ==> decode(s).rest.len()
            == 0,
    decreases s.len(), 0nat,
{
    let first = decode_line(s);
    lemma_decode_line_rest(s);
    match first.result {
        Err(e) => {},
        Ok(content) => match header(content) {
            Err(e) => {},
            Ok(Header::Whole(v)) => {},
            Ok(Header::Bulk(len)) => {
                lemma_decode_payload_rest(first.rest, len);
                lemma_suffix_trans(decode_payload(first.rest, len).rest, first.rest, s);
            },
            Ok(Header::Array(count)) => {
                lemma_decode_items_rest(first.rest, count);
                lemma_suffix_trans(decode_items(first.rest, count).rest, first.rest, s);
            },
        },
    }
}

/// Decoding several frames takes bytes off the front of the input, and
/// reports the end of the stream only when nothing is left.
pub proof fn lemma_decode_items_rest(s: Seq<u8>, count: nat)
    ensures
        is_suffix(decode_items(s, count).rest, s),
        decode_items(s, count).result == Err::<Seq<Value>, Error>(Error::UnexpectedEof)
            ==> decode_items(s, count).rest.len() == 0,
    decreases s.len(), count + 1,
{
    if count == 0 {
        assert(s =~= s.subrange(0, s.len() as int));
    } else {
        let first = decode(s);
        lemma_decode_rest(s);
        match first.result {
            Err(e) => {},
            Ok(v) => {
                lemma_decode_items_rest(first.rest, (count - 1) as nat);
                lemma_suffix_trans(
                    decode_items(first.rest, (count - 1) as nat).rest,
                    first.rest,
                    s,
                );
            },
        }
    }
}

/// Decoding several frames is decoding the first and then the others: the
/// test on the lengths in [`decode_items`] never fails.
pub proof fn lemma_decode_items_step(s: Seq<u8>, count: nat)
    requires
        count > 0,
    ensures
        decode_items(s, count) == match decode(s).result {
            Err(e) => Decoded::<Seq<Value>> { result: Err(e), rest: decode(s).rest },
            Ok(v) => after(seq![v], decode_items(decode(s).rest, (count - 1) as nat)),
        },
{
    lemma_decode_rest(s);
}

/// Input that is at its end gives the end of the stream, and nothing else.
pub proof fn lemma_end_of_stream()
    ensures
        decode(Seq::<u8>::empty()) == (Decoded::<Value> {
            result: Err(Error::UnexpectedEof),
            rest: Seq::<u8>::empty(),
        }),
{
}

/// A bulk string whose payload is not followed by CR LF where its header
/// says it ends is a malformed line, whatever else the input holds.
pub proof fn lemma_bulk_terminator(len: usize, behind: Seq<u8>)
    requires
        behind.len() >= len + 2,
        behind[len as int] != CR || behind[len + 1] != LF,
    ensures
        decode(line(TAG_BULK, text_of(len as int)) + behind).result == Err::<Value, Error>(
            Error::ExpectedLine,
        ),
{
    let body = text_of(len as int);
    lemma_round_trip_count(TAG_BULK, len, behind);
    lemma_decode_by_tag(line(TAG_BULK, body) + behind, seq![TAG_BULK] + body, behind);
}

} // verus!
