//! What the parser reads back from the encoding of a value.
use vstd::prelude::*;
use vstd::utf8::*;
use crate::resp::parser::{ParseFailure, crlf_from, header_count, spec_parse, spec_parse_items};
use crate::resp::types::{RespValue, crlf, items_text, lemma_encode_concat, resp_bytes, resp_text};
use crate::utils::text::{
    int_text, is_ascii_text, signed_value, is_digit, lemma_encode_ascii, lemma_int_text_parses, lemma_nat_text,
    lemma_scalar_bytes,
    nat_text, parse_i64, parse_usize,
};

verus! {

broadcast use {encode_utf8_valid_utf8, encode_utf8_decode_utf8};

/// No carriage return in `s` is directly followed by a line feed.
pub open spec fn no_crlf(s: Seq<char>) -> bool {
    forall|i: int| 0 <= i < s.len() - 1 ==> !(#[trigger] s[i] == '\r' && s[i + 1] == '\n')
}

/// A value whose encoding reads back: simple strings and errors hold no
/// line break (`\r\n`), and lengths fit in a `usize`.
pub open spec fn wire_safe(v: RespValue) -> bool
    decreases v,
{
    match v {
        RespValue::SimpleString(s) => no_crlf(s),
        RespValue::SimpleError(s) => no_crlf(s),
        RespValue::BulkString(s) => encode_utf8(s).len() <= usize::MAX,
        RespValue::Array(items) => items.len() <= usize::MAX && items_safe(items),
        _ => true,
    }
}

pub open spec fn items_safe(items: Seq<RespValue>) -> bool
    decreases items,
{
    if items.len() == 0 {
        true
    } else {
        wire_safe(items[0]) && items_safe(items.subrange(1, items.len() as int))
    }
}

/// What the parser gives back for the encoding of `v`: a simple error is
/// read as a simple string with the same text; everything else as it was.
pub open spec fn read_back(v: RespValue) -> RespValue
    decreases v,
{
    match v {
        RespValue::SimpleError(s) => RespValue::SimpleString(s),
        RespValue::Array(items) => RespValue::Array(read_back_items(items)),
        _ => v,
    }
}

pub open spec fn read_back_items(items: Seq<RespValue>) -> Seq<RespValue>
    decreases items,
{
    if items.len() == 0 {
        Seq::empty()
    } else {
        seq![read_back(items[0])] + read_back_items(items.subrange(1, items.len() as int))
    }
}

/// The first `\r\n` from `from` on is the one at `j`.
proof fn lemma_crlf_at(b: Seq<u8>, from: int, j: int)
    requires
        0 <= from <= j,
        j + 1 < b.len(),
        b[j] == 13,
        b[j + 1] == 10,
        forall|k: int| from <= k < j ==> !(#[trigger] b[k] == 13 && b[k + 1] == 10),
    ensures
        crlf_from(b, from) == Some(j),
    decreases j - from,
{
    if from < j {
        lemma_crlf_at(b, from + 1, j);
    }
}

/// The first byte of a character's encoding is 13 only for `\r`, and 10
/// only for `\n`; in both cases it is the only byte.
proof fn lemma_first_byte(c: char)
    ensures
        encode_scalar(c as u32).len() >= 1,
        encode_scalar(c as u32)[0] == 13 ==> c == '\r' && encode_scalar(c as u32).len() == 1,
        encode_scalar(c as u32)[0] == 10 ==> c == '\n' && encode_scalar(c as u32).len() == 1,
        encode_scalar(c as u32).len() > 1 ==> forall|i: int|
            0 <= i < encode_scalar(c as u32).len() ==> #[trigger] encode_scalar(c as u32)[i] >= 0x80,
{
    let x = c as u32;
    char_is_scalar(c);
    lemma_scalar_low_bytes(x);
    if encode_scalar(x)[0] == 13 {
        assert(x == 13);
        char_u32_cast(c, x);
    }
    if encode_scalar(x)[0] == 10 {
        assert(x == 10);
        char_u32_cast(c, x);
    }
}

/// No `\r\n` pair lies inside the encoding of a text without one.
proof fn lemma_encode_no_crlf(s: Seq<char>)
    requires
        no_crlf(s),
    ensures
        forall|k: int|
            0 <= k < encode_utf8(s).len() - 1 ==> !(#[trigger] encode_utf8(s)[k] == 13 && encode_utf8(s)[k + 1] == 10),
        s.len() > 0 && encode_utf8(s).last() == 13 ==> s.last() == '\r',
    decreases s.len(),
{
    if s.len() > 0 {
        let t = s.drop_first();
        lemma_first_byte(s[0]);
        assert(no_crlf(t)) by {
            assert forall|i: int| 0 <= i < t.len() - 1 implies !(#[trigger] t[i] == '\r' && t[i + 1] == '\n') by {
                assert(t[i] == s[i + 1]);
                assert(t[i + 1] == s[i + 2]);
            }
        }
        lemma_encode_no_crlf(t);
        let h = encode_scalar(s[0] as u32);
        let e = encode_utf8(s);
        let et = encode_utf8(t);
        assert(e == h + et);
        if t.len() > 0 {
            lemma_first_byte(t[0]);
            assert(et == encode_scalar(t[0] as u32) + encode_utf8(t.drop_first()));
            assert(et[0] == encode_scalar(t[0] as u32)[0]);
        }
        assert forall|k: int| 0 <= k < e.len() - 1 implies !(#[trigger] e[k] == 13 && e[k + 1] == 10) by {
            if k + 1 < h.len() {
                assert(e[k] == h[k]);
            } else if k < h.len() {
                assert(e[k] == h[k]);
                if e[k] == 13 {
                    assert(k == 0);
                    assert(s[0] == '\r');
                    assert(t.len() > 0);
                    assert(e[k + 1] == et[0]);
                    assert(t[0] == s[1]);
                }
            } else {
                assert(e[k] == et[k - h.len()]);
                assert(e[k + 1] == et[k + 1 - h.len()]);
            }
        }
        if e.last() == 13 {
            if t.len() == 0 {
                assert(et.len() == 0);
                assert(e.last() == h[h.len() - 1]);
                assert(s.last() == s[0]);
            } else {
                assert(e.last() == et.last());
                assert(s.last() == t.last());
            }
        }
    }
}

/// Bytes of one scalar: an ASCII character is its own code; any other
/// character has only bytes of `0x80` and above.
proof fn lemma_scalar_low_bytes(x: u32)
    requires
        is_scalar(x),
    ensures
        x < 0x80 ==> encode_scalar(x) == seq![x as u8],
        x < 0x80 ==> (x as u8) as u32 == x,
        x >= 0x80 ==> forall|i: int| 0 <= i < encode_scalar(x).len() ==> #[trigger] encode_scalar(x)[i] >= 0x80,
        encode_scalar(x).len() >= 1,
        encode_scalar(x).len() > 1 <==> x >= 0x80,
{
    lemma_scalar_bytes(x);
}

/// A line: a type byte, the bytes `d` without a `\r\n` inside, `\r\n`;
/// the first `\r\n` after the type byte is its end.
proof fn lemma_line_end(tag: u8, d: Seq<u8>, tail: Seq<u8>)
    requires
        forall|k: int| 0 <= k < d.len() - 1 ==> !(#[trigger] d[k] == 13 && d[k + 1] == 10),
    ensures
        crlf_from(seq![tag] + d + seq![13u8, 10u8] + tail, 1) == Some(1 + d.len() as int),
{
    let b = seq![tag] + d + seq![13u8, 10u8] + tail;
    assert forall|k: int| 1 <= k < 1 + d.len() implies !(#[trigger] b[k] == 13 && b[k + 1] == 10) by {
        assert(b[k] == d[k - 1]);
        if k < d.len() {
            assert(b[k + 1] == d[k]);
        } else {
            assert(b[k + 1] == 13);
        }
    }
    lemma_crlf_at(b, 1, 1 + d.len() as int);
}

/// The bytes of a line of text that starts with the ASCII character `c`.
proof fn lemma_line_bytes(c: char, body: Seq<char>)
    requires
        (c as u32) < 0x80,
    ensures
        encode_utf8(seq![c] + body + crlf()) == seq![(c as u32) as u8] + encode_utf8(body) + seq![13u8, 10u8],
{
    lemma_encode_concat(seq![c] + body, crlf());
    lemma_encode_concat(seq![c], body);
    lemma_encode_ascii(seq![c]);
    lemma_encode_ascii(crlf());
    assert(encode_utf8(seq![c]) =~= seq![(c as u32) as u8]) by {
        lemma_scalar_bytes(c as u32);
    }
    assert(encode_utf8(crlf()) =~= seq![13u8, 10u8]);
}

/// The decimal text of an integer is ASCII, one byte per character, with
/// no carriage return; it parses back to the integer.
proof fn lemma_decimal_bytes(n: int)
    ensures
        encode_utf8(int_text(n)).len() == int_text(n).len(),
        forall|k: int| 0 <= k < encode_utf8(int_text(n)).len() ==> #[trigger] encode_utf8(int_text(n))[k] != 13,
        signed_value(int_text(n)) == Some(n),
        n >= 0 ==> int_text(n) == nat_text(n as nat),
        n >= 0 ==> crate::utils::text::unsigned_value(nat_text(n as nat)) == Some(n as nat),
{
    lemma_int_text_parses(n);
    let t = int_text(n);
    let m: nat = if n < 0 { (-n) as nat } else { n as nat };
    lemma_nat_text(m);
    assert forall|i: int| 0 <= i < t.len() implies (#[trigger] t[i] as u32) < 0x80 && t[i] as u32 != 13 by {
        if n < 0 {
            if i > 0 {
                assert(t[i] == nat_text(m)[i - 1]);
                assert(is_digit(nat_text(m)[i - 1]));
            }
        } else {
            assert(is_digit(nat_text(m)[i]));
        }
    }
    lemma_encode_ascii(t);
    assert forall|k: int| 0 <= k < encode_utf8(t).len() implies #[trigger] encode_utf8(t)[k] != 13 by {
        assert(encode_utf8(t)[k] == t[k] as u32);
    }
}

/// `items_text`, taken from the front.
proof fn lemma_items_text_front(items: Seq<RespValue>)
    requires
        items.len() > 0,
    ensures
        items_text(items) == resp_text(items[0]) + items_text(items.subrange(1, items.len() as int)),
    decreases items.len(),
{
    let n = items.len() as int;
    if n == 1 {
        assert(items.subrange(0, 0) =~= Seq::<RespValue>::empty());
        assert(items.subrange(1, 1) =~= Seq::<RespValue>::empty());
        assert(items_text(items) =~= resp_text(items[0]) + items_text(items.subrange(1, 1)));
    } else {
        let init = items.subrange(0, n - 1);
        let more = items.subrange(1, n);
        lemma_items_text_front(init);
        assert(init.subrange(1, n - 1) =~= more.subrange(0, n - 2));
        assert(init[0] == items[0]);
        assert(more[n - 2] == items[n - 1]);
        assert(items_text(more) == items_text(more.subrange(0, n - 2)) + resp_text(more[n - 2]));
        assert(items_text(items) == items_text(init) + resp_text(items[n - 1]));
        assert(items_text(items) =~= resp_text(items[0]) + items_text(more));
    }
}

/// A simple string or error reads back as a simple string.
proof fn lemma_parse_simple(v: RespValue, s: Seq<char>, c: char, rest: Seq<u8>)
    requires
        (v == RespValue::SimpleString(s) && c == '+') || (v == RespValue::SimpleError(s) && c == '-'),
        no_crlf(s),
    ensures
        spec_parse(resp_bytes(v) + rest) == Ok::<(RespValue, int), ParseFailure>(
            (RespValue::SimpleString(s), resp_bytes(v).len() as int),
        ),
{
    lemma_line_bytes(c, s);
    lemma_encode_no_crlf(s);
    let e = encode_utf8(s);
    let tag = (c as u32) as u8;
    let b = resp_bytes(v) + rest;
    assert(b =~= seq![tag] + e + seq![13u8, 10u8] + rest);
    lemma_line_end(tag, e, rest);
    assert(b.subrange(1, 1 + e.len() as int) =~= e);
}

/// An integer reads back as itself.
proof fn lemma_parse_integer(i: i64, rest: Seq<u8>)
    ensures
        spec_parse(resp_bytes(RespValue::Integer(i)) + rest) == Ok::<(RespValue, int), ParseFailure>(
            (RespValue::Integer(i), resp_bytes(RespValue::Integer(i)).len() as int),
        ),
{
    let t = int_text(i as int);
    lemma_line_bytes(':', t);
    lemma_decimal_bytes(i as int);
    let e = encode_utf8(t);
    let b = resp_bytes(RespValue::Integer(i)) + rest;
    assert(b =~= seq![58u8] + e + seq![13u8, 10u8] + rest);
    lemma_line_end(58u8, e, rest);
    assert(b.subrange(1, 1 + e.len() as int) =~= e);
    assert(parse_i64(t) == Some(i));
}

/// The header of a bulk string or an array, with the count `n`.
proof fn lemma_header(tag: char, n: nat, tail: Seq<u8>)
    requires
        (tag as u32) < 0x80,
        n <= usize::MAX,
    ensures
        ({
            let h = encode_utf8(nat_text(n));
            let b = seq![(tag as u32) as u8] + h + seq![13u8, 10u8] + tail;
            &&& encode_utf8(seq![tag] + nat_text(n) + crlf()) == seq![(tag as u32) as u8] + h + seq![13u8, 10u8]
            &&& crlf_from(b, 1) == Some(1 + h.len() as int)
            &&& header_count(b.subrange(1, 1 + h.len() as int)) == Ok::<nat, Seq<char>>(n)
        }),
{
    lemma_line_bytes(tag, nat_text(n));
    lemma_decimal_bytes(n as int);
    let h = encode_utf8(nat_text(n));
    let b = seq![(tag as u32) as u8] + h + seq![13u8, 10u8] + tail;
    lemma_line_end((tag as u32) as u8, h, tail);
    assert(b.subrange(1, 1 + h.len() as int) =~= h);
}

/// A bulk string reads back as itself.
proof fn lemma_parse_bulk(s: Seq<char>, rest: Seq<u8>)
    requires
        encode_utf8(s).len() <= usize::MAX,
    ensures
        spec_parse(resp_bytes(RespValue::BulkString(s)) + rest) == Ok::<(RespValue, int), ParseFailure>(
            (RespValue::BulkString(s), resp_bytes(RespValue::BulkString(s)).len() as int),
        ),
{
    let e = encode_utf8(s);
    let n = e.len();
    let h = encode_utf8(nat_text(n));
    let tail = e + seq![13u8, 10u8] + rest;
    lemma_header('$', n, tail);
    lemma_encode_concat(seq!['$'] + nat_text(n) + crlf(), s + crlf());
    lemma_encode_concat(s, crlf());
    lemma_encode_ascii(crlf());
    assert(encode_utf8(crlf()) =~= seq![13u8, 10u8]);
    assert(resp_text(RespValue::BulkString(s)) =~= (seq!['$'] + nat_text(n) + crlf()) + (s + crlf()));
    let b = resp_bytes(RespValue::BulkString(s)) + rest;
    assert(b =~= seq![36u8] + h + seq![13u8, 10u8] + tail);
    let start: int = 1 + h.len() as int + 2;
    assert(b.subrange(start, start + n) =~= e);
    assert(b[start + n] == 13);
    assert(b[start + n + 1] == 10);
}

/// Values encoded one after the other, from position `pos`, read back one
/// by one.
proof fn lemma_parse_items_encoded(items: Seq<RespValue>, buf: Seq<u8>, pos: int)
    requires
        items_safe(items),
        0 <= pos,
        pos + encode_utf8(items_text(items)).len() <= buf.len(),
        buf.subrange(pos, pos + encode_utf8(items_text(items)).len()) == encode_utf8(items_text(items)),
    ensures
        spec_parse_items(buf, pos, items.len()) == Ok::<(Seq<RespValue>, int), ParseFailure>(
            (read_back_items(items), pos + encode_utf8(items_text(items)).len()),
        ),
    decreases items,
{
    if items.len() == 0 {
        assert(items_text(items) =~= Seq::<char>::empty());
        assert(read_back_items(items) =~= Seq::<RespValue>::empty());
    } else {
        let n = items.len() as int;
        lemma_items_text_front(items);
        let first = items[0];
        let more = items.subrange(1, n);
        let ef = resp_bytes(first);
        let em = encode_utf8(items_text(more));
        lemma_encode_concat(resp_text(first), items_text(more));
        let tail = buf.subrange(pos + ef.len(), buf.len() as int);
        assert(buf.subrange(pos, buf.len() as int) =~= ef + tail);
        assert(decreases_to!(items => items[0]));
        law_resp_round_trip(first, tail);
        let whole = buf.subrange(pos, pos + ef.len() + em.len());
        assert(whole == ef + em);
        let sub = buf.subrange(pos + ef.len(), pos + ef.len() + em.len());
        assert forall|i: int| 0 <= i < em.len() implies #[trigger] sub[i] == em[i] by {
            assert(sub[i] == whole[ef.len() + i]);
            assert((ef + em)[ef.len() + i] == em[i]);
        }
        assert(sub =~= em);
        lemma_parse_items_encoded(more, buf, pos + ef.len());
        assert((n - 1) as nat == more.len());
    }
}

/// **Round trip**: parsing the encoding of a value, followed by anything,
/// gives the value back (`read_back`: a simple error comes back as a
/// simple string) and the length of its encoding.
pub proof fn law_resp_round_trip(v: RespValue, rest: Seq<u8>)
    requires
        wire_safe(v),
    ensures
        spec_parse(resp_bytes(v) + rest) == Ok::<(RespValue, int), ParseFailure>(
            (read_back(v), resp_bytes(v).len() as int),
        ),
    decreases v,
{
    match v {
        RespValue::SimpleString(s) => lemma_parse_simple(v, s, '+', rest),
        RespValue::SimpleError(s) => lemma_parse_simple(v, s, '-', rest),
        RespValue::Integer(i) => lemma_parse_integer(i, rest),
        RespValue::BulkString(s) => lemma_parse_bulk(s, rest),
        RespValue::Array(items) => {
            let n = items.len();
            let h = encode_utf8(nat_text(n));
            let ei = encode_utf8(items_text(items));
            let tail = ei + rest;
            lemma_header('*', n, tail);
            lemma_encode_concat(seq!['*'] + nat_text(n) + crlf(), items_text(items));
            let b = resp_bytes(v) + rest;
            assert(b =~= seq![42u8] + h + seq![13u8, 10u8] + tail);
            let start: int = 1 + h.len() as int + 2;
            assert(b.subrange(start, start + ei.len()) =~= ei);
            lemma_parse_items_encoded(items, b, start);
        },
        RespValue::Null => {
            lemma_line_bytes('_', Seq::empty());
            let b = resp_bytes(v) + rest;
            assert(seq!['_'] + Seq::<char>::empty() + crlf() =~= resp_text(v));
            assert(b =~= seq![95u8] + Seq::<u8>::empty() + seq![13u8, 10u8] + rest);
            lemma_line_end(95u8, Seq::empty(), rest);
        },
        RespValue::Boolean(x) => {
            let c = if x { 't' } else { 'f' };
            lemma_line_bytes('#', seq![c]);
            lemma_encode_ascii(seq![c]);
            let e = encode_utf8(seq![c]);
            assert(seq!['#'] + seq![c] + crlf() =~= resp_text(v));
            let b = resp_bytes(v) + rest;
            assert(b =~= seq![35u8] + e + seq![13u8, 10u8] + rest);
            lemma_line_end(35u8, e, rest);
            assert(b.subrange(1, 2) =~= e);
            reveal_strlit("t");
            reveal_strlit("f");
            assert("t"@ =~= seq!['t']);
            assert("f"@ =~= seq!['f']);
        },
    }
}

} // verus!
