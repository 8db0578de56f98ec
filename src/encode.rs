//! Encoding replies in the wire format.
use crate::decimal::{
    all_digits, decimal_text, digits_of, i64_value, lemma_decimal_round_trip,
    lemma_digits_of_value, push_decimal, push_digits,
};
use crate::resp_parser::{decode, frame_at, frames_from, split_from, split_lines, text_of, Value};
use vstd::prelude::*;
use vstd::utf8::{
    decode_utf8, encode_utf8, encode_utf8_decode_utf8, encode_utf8_valid_utf8, valid_utf8,
    valid_utf8_concat,
};

verus! {

pub open spec fn crlf() -> Seq<u8> {
    seq![13u8, 10u8]
}

/// `+<text>\r\n`
pub open spec fn simple_bytes(t: Seq<char>) -> Seq<u8> {
    seq![43u8] + encode_utf8(t) + crlf()
}

/// `-<text>\r\n`
pub open spec fn error_bytes(t: Seq<char>) -> Seq<u8> {
    seq![45u8] + encode_utf8(t) + crlf()
}

/// `$<len>\r\n<text>\r\n`
pub open spec fn bulk_bytes(len: int, t: Seq<char>) -> Seq<u8> {
    seq![36u8] + decimal_text(len) + crlf() + encode_utf8(t) + crlf()
}

/// `$-1\r\n`, the absent value.
pub open spec fn null_bulk_bytes() -> Seq<u8> {
    seq![36u8, 45u8, 49u8, 13u8, 10u8]
}

/// Appends the UTF-8 bytes of `t` to `out`.
pub fn push_text(out: &mut Vec<u8>, t: &str)
    ensures
        final(out)@ == old(out)@ + encode_utf8(t@),
{
    let b = t.as_bytes();
    let mut i: usize = 0;
    while i < b.len()
        invariant
            i <= b@.len(),
            b@ == encode_utf8(t@),
            out@ == old(out)@ + b@.subrange(0, i as int),
        decreases b@.len() - i,
    {
        out.push(b[i]);
        assert(b@.subrange(0, i + 1) =~= b@.subrange(0, i as int).push(b@[i as int]));
        i = i + 1;
    }
    assert(b@.subrange(0, i as int) =~= b@);
}

fn push_crlf(out: &mut Vec<u8>)
    ensures
        final(out)@ == old(out)@ + crlf(),
{
    out.push(13);
    out.push(10);
    assert(out@ =~= old(out)@ + crlf());
}

pub fn encode_simple_string(text: &str) -> (r: Vec<u8>)
    ensures
        r@ == simple_bytes(text@),
{
    let mut out: Vec<u8> = Vec::new();
    out.push(43);
    push_text(&mut out, text);
    push_crlf(&mut out);
    assert(out@ =~= simple_bytes(text@));
    out
}

pub fn encode_error(text: &str) -> (r: Vec<u8>)
    ensures
        r@ == error_bytes(text@),
{
    let mut out: Vec<u8> = Vec::new();
    out.push(45);
    push_text(&mut out, text);
    push_crlf(&mut out);
    assert(out@ =~= error_bytes(text@));
    out
}

pub fn encode_bulk_string(len: i64, text: &str) -> (r: Vec<u8>)
    ensures
        r@ == bulk_bytes(len as int, text@),
{
    let mut out: Vec<u8> = Vec::new();
    out.push(36);
    push_decimal(len, &mut out);
    push_crlf(&mut out);
    push_text(&mut out, text);
    push_crlf(&mut out);
    assert(out@ =~= bulk_bytes(len as int, text@));
    out
}

/// A bulk string reply for `text`, announcing its length in bytes.
pub fn encode_bulk_text(text: &str) -> (r: Vec<u8>)
    ensures
        r@ == bulk_bytes(encode_utf8(text@).len() as int, text@),
{
    let mut out: Vec<u8> = Vec::new();
    out.push(36);
    let n = text.as_bytes().len();
    push_digits(n as u64, &mut out);
    push_crlf(&mut out);
    push_text(&mut out, text);
    push_crlf(&mut out);
    assert(out@ =~= bulk_bytes(encode_utf8(text@).len() as int, text@));
    out
}

pub fn encode_null_bulk() -> (r: Vec<u8>)
    ensures
        r@ == null_bulk_bytes(),
{
    let mut out: Vec<u8> = Vec::new();
    out.push(36);
    out.push(45);
    out.push(49);
    push_crlf(&mut out);
    assert(out@ =~= null_bulk_bytes());
    out
}

/// Some CR byte in `b` is directly followed by an LF byte.
pub open spec fn has_crlf(b: Seq<u8>) -> bool {
    exists|k: int| 0 <= k && k + 1 < b.len() && #[trigger] b[k] == 13 && b[k + 1] == 10
}

/// The scan for line ends runs from `i` to the CR LF pair at `e` without
/// meeting another pair: the segment that started at `start` ends at `e`.
proof fn lemma_split_through(b: Seq<u8>, start: int, i: int, e: int)
    requires
        0 <= start <= i <= e,
        e + 1 < b.len(),
        b[e] == 13 && b[e + 1] == 10,
        forall|j: int| i <= j < e ==> !(b[j] == 13 && #[trigger] b[j + 1] == 10),
    ensures
        split_from(b, start, i) == seq![b.subrange(start, e)] + split_from(b, e + 2, e + 2),
    decreases e - i,
{
    if i < e {
        lemma_split_through(b, start, i + 1, e);
    }
}

/// At the end of the buffer only the empty segment is left.
proof fn lemma_split_end(b: Seq<u8>)
    ensures
        split_from(b, b.len() as int, b.len() as int) == seq![Seq::<u8>::empty()],
{
    assert(b.subrange(b.len() as int, b.len() as int) =~= Seq::<u8>::empty());
}

/// A run of ASCII bytes is valid UTF-8.
proof fn lemma_ascii_valid_utf8(b: Seq<u8>)
    requires
        forall|k: int| 0 <= k < b.len() ==> #[trigger] b[k] < 128,
    ensures
        valid_utf8(b),
    decreases b.len(),
{
    if b.len() > 0 {
        let c = b[0];
        assert(c & 0x7f <= 0x7f) by (bit_vector);
        let rest = b.subrange(1, b.len() as int);
        lemma_ascii_valid_utf8(rest);
    }
}

/// The decimal text of a number is made of digits and the minus sign.
proof fn lemma_decimal_no_cr(n: int)
    ensures
        forall|k: int| 0 <= k < decimal_text(n).len() ==> 45 <= #[trigger] decimal_text(n)[k] <= 57,
{
    if n < 0 {
        lemma_digits_of_value((-n) as nat);
        let d = digits_of((-n) as nat);
        assert forall|k: int| 0 <= k < decimal_text(n).len() implies 45 <= #[trigger] decimal_text(
            n,
        )[k] <= 57 by {
            if k > 0 {
                assert(decimal_text(n)[k] == d[k - 1]);
            }
        }
    } else {
        lemma_digits_of_value(n as nat);
    }
}

/// Encoding a simple string and decoding the bytes gives the same string
/// back, as the only frame, when its text holds no CR LF pair.
pub proof fn lemma_simple_string_round_trip(t: Seq<char>)
    requires
        !has_crlf(encode_utf8(t)),
    ensures
        decode(simple_bytes(t)) == Ok::<Seq<Value>, crate::resp_parser::ParseError>(
            seq![Value::Simple(t)],
        ),
{
    let e = encode_utf8(t);
    let b = simple_bytes(t);
    let line = seq![43u8] + e;
    let end = line.len() as int;
    encode_utf8_valid_utf8(t);
    lemma_ascii_valid_utf8(seq![43u8]);
    lemma_ascii_valid_utf8(crlf());
    valid_utf8_concat(seq![43u8], e);
    valid_utf8_concat(line, crlf());
    assert(b =~= line + crlf());
    assert forall|j: int| 0 <= j < end implies !(b[j] == 13 && #[trigger] b[j + 1] == 10) by {
        if j > 0 && j + 1 < end {
            assert(b[j] == e[j - 1] && b[j + 1] == e[j]);
        }
    }
    lemma_split_through(b, 0, 0, end);
    assert(b.subrange(0, end) =~= line);
    lemma_split_end(b);
    let lines = split_lines(b);
    assert(lines =~= seq![line, Seq::<u8>::empty()]);
    assert(line.drop_first() =~= e);
    encode_utf8_valid_utf8(t);
    encode_utf8_decode_utf8(t);
    assert(text_of(e) == Ok::<Seq<char>, crate::resp_parser::ParseError>(t));
    assert(frame_at(lines, 0) == Ok::<(Value, int), crate::resp_parser::ParseError>(
        (Value::Simple(t), 1),
    ));
    assert(frames_from(lines, 1) == Ok::<Seq<Value>, crate::resp_parser::ParseError>(seq![]));
    assert(seq![Value::Simple(t)] + Seq::<Value>::empty() =~= seq![Value::Simple(t)]);
}

/// Encoding a bulk string and decoding the bytes gives the same declared
/// length and text back, as the only frame, when its text holds no CR LF
/// pair.
pub proof fn lemma_bulk_string_round_trip(len: i64, t: Seq<char>)
    requires
        !has_crlf(encode_utf8(t)),
    ensures
        decode(bulk_bytes(len as int, t)) == Ok::<Seq<Value>, crate::resp_parser::ParseError>(
            seq![Value::Bulk(len as int, t)],
        ),
{
    let e = encode_utf8(t);
    let d = decimal_text(len as int);
    let b = bulk_bytes(len as int, t);
    let head = seq![36u8] + d;
    let h = head.len() as int;
    let body_end = h + 2 + e.len();
    lemma_decimal_no_cr(len as int);
    encode_utf8_valid_utf8(t);
    lemma_ascii_valid_utf8(head + crlf());
    lemma_ascii_valid_utf8(crlf());
    valid_utf8_concat(head + crlf(), e);
    valid_utf8_concat(head + crlf() + e, crlf());
    assert(b =~= head + crlf() + e + crlf());
    assert forall|j: int| 0 <= j < h implies !(b[j] == 13 && #[trigger] b[j + 1] == 10) by {
        if j > 0 {
            assert(b[j] == d[j - 1]);
        }
    }
    lemma_split_through(b, 0, 0, h);
    assert(b.subrange(0, h) =~= head);
    assert forall|j: int| h + 2 <= j < body_end implies !(b[j] == 13 && #[trigger] b[j + 1] == 10) by {
        if j + 1 < body_end {
            assert(b[j] == e[j - h - 2] && b[j + 1] == e[j - h - 1]);
        }
    }
    lemma_split_through(b, h + 2, h + 2, body_end);
    assert(b.subrange(h + 2, body_end) =~= e);
    lemma_split_end(b);
    let lines = split_lines(b);
    assert(lines =~= seq![head, e, Seq::<u8>::empty()]);
    assert(head.drop_first() =~= d);
    lemma_decimal_round_trip(len as int);
    assert(i64_value(d) == Some(len));
    encode_utf8_valid_utf8(t);
    encode_utf8_decode_utf8(t);
    assert(text_of(e) == Ok::<Seq<char>, crate::resp_parser::ParseError>(t));
    assert(frame_at(lines, 0) == Ok::<(Value, int), crate::resp_parser::ParseError>(
        (Value::Bulk(len as int, t), 2),
    ));
    assert(frames_from(lines, 2) == Ok::<Seq<Value>, crate::resp_parser::ParseError>(seq![]));
    assert(seq![Value::Bulk(len as int, t)] + Seq::<Value>::empty() =~= seq![
        Value::Bulk(len as int, t),
    ]);
}

} // verus!
