//! What reading a snapshot gives back of what was written.
use vstd::prelude::*;
use vstd::utf8::*;
use crate::database::store::{DbView, RedisValue, enumerates, is_snapshot_of, map_of};
use crate::rdb::reader::{
    RdbError, be32_value, is_list_token, is_string_token, le64_value, rd_byte, rd_expiry, rd_len,
    rd_len_first, rd_list_items, rd_records, rd_str, rd_str_first, spec_load, text_of,
};
use crate::rdb::writer::{
    be32_bytes, entries_bytes, not_before, not_before_time, entry_bytes, expiries_bytes, expiry_bytes, header_bytes, le64_bytes,
    length_bytes, list_items_bytes, rdb_image, string_bytes, value_bytes,
};
use crate::utils::text::{ascii_upper, lemma_encode_ascii};

verus! {

broadcast use {encode_utf8_valid_utf8, encode_utf8_decode_utf8};

/// `x` lies in `b` from position `p` on.
pub open spec fn at(b: Seq<u8>, p: int, x: Seq<u8>) -> bool {
    0 <= p && p + x.len() <= b.len() && b.subrange(p, p + x.len()) == x
}

proof fn lemma_at_split(b: Seq<u8>, p: int, x: Seq<u8>, y: Seq<u8>)
    requires
        at(b, p, x + y),
    ensures
        at(b, p, x),
        at(b, p + x.len(), y),
{
    let w = b.subrange(p, p + x.len() + y.len());
    assert(w == x + y);
    assert(b.subrange(p, p + x.len()) =~= x) by {
        assert forall|i: int| 0 <= i < x.len() implies #[trigger] b.subrange(p, p + x.len())[i] == x[i] by {
            assert(w[i] == (x + y)[i]);
        }
    }
    assert(b.subrange(p + x.len(), p + x.len() + y.len()) =~= y) by {
        assert forall|i: int| 0 <= i < y.len() implies #[trigger] b.subrange(p + x.len(), p + x.len() + y.len())[i] == y[i] by {
            assert(w[x.len() + i] == (x + y)[x.len() + i]);
        }
    }
}

proof fn lemma_at_index(b: Seq<u8>, p: int, x: Seq<u8>, i: int)
    requires
        at(b, p, x),
        0 <= i < x.len(),
    ensures
        b[p + i] == x[i],
{
    assert(b.subrange(p, p + x.len())[i] == b[p + i]);
}

/// A text whose stored form fits: its UTF-8 length is below 2^32.
pub open spec fn storable_text(s: Seq<char>) -> bool {
    encode_utf8(s).len() < 0x1_0000_0000
}

/// An entry that a snapshot keeps: a storable key, and a storable string,
/// or a non-empty list of storable strings.
pub open spec fn storable_entry(k: Seq<char>, v: RedisValue) -> bool {
    &&& storable_text(k)
    &&& match v {
        RedisValue::Text(s) => storable_text(s),
        RedisValue::List(items) => 0 < items.len() < 0x1_0000_0000 && forall|i: int|
            0 <= i < items.len() ==> (#[trigger] items[i] matches RedisValue::Text(s) && storable_text(s)),
    }
}

/// A key whose expiry a snapshot keeps: storable, and not read as an entry
/// (`string` or `list` in any case).
pub open spec fn storable_expiry_key(k: Seq<char>) -> bool {
    storable_text(k) && !is_string_token(k) && !is_list_token(k)
}

/// Entries and expiries that a snapshot keeps.
pub open spec fn storable(d: Seq<(Seq<char>, RedisValue)>, e: Seq<(Seq<char>, u64)>) -> bool {
    &&& forall|i: int| 0 <= i < d.len() ==> storable_entry(#[trigger] d[i].0, d[i].1)
    &&& forall|j: int| 0 <= j < e.len() ==> storable_expiry_key(#[trigger] e[j].0)
}

proof fn lemma_be32(n: u32)
    ensures
        be32_value(be32_bytes(n)) == n,
{
    let s = be32_bytes(n);
    let a = s[0];
    let b = s[1];
    let c = s[2];
    let d = s[3];
    assert(s.subrange(0, 4) =~= s);
    assert(((a as u32) << 24u32) | ((b as u32) << 16u32) | ((c as u32) << 8u32) | (d as u32) == n) by (bit_vector)
        requires
            a == (n >> 24u32) as u8,
            b == ((n >> 16u32) & 0xffu32) as u8,
            c == ((n >> 8u32) & 0xffu32) as u8,
            d == (n & 0xffu32) as u8,
    ;
}

proof fn lemma_le64(n: u64)
    ensures
        le64_value(le64_bytes(n)) == n,
{
    let s = le64_bytes(n);
    let b0 = s[0];
    let b1 = s[1];
    let b2 = s[2];
    let b3 = s[3];
    let b4 = s[4];
    let b5 = s[5];
    let b6 = s[6];
    let b7 = s[7];
    assert((b0 as u64) | ((b1 as u64) << 8u64) | ((b2 as u64) << 16u64) | ((b3 as u64) << 24u64) | ((
    b4 as u64) << 32u64) | ((b5 as u64) << 40u64) | ((b6 as u64) << 48u64) | ((b7 as u64) << 56u64)
        == n) by (bit_vector)
        requires
            b0 == (n & 0xffu64) as u8,
            b1 == ((n >> 8u64) & 0xffu64) as u8,
            b2 == ((n >> 16u64) & 0xffu64) as u8,
            b3 == ((n >> 24u64) & 0xffu64) as u8,
            b4 == ((n >> 32u64) & 0xffu64) as u8,
            b5 == ((n >> 40u64) & 0xffu64) as u8,
            b6 == ((n >> 48u64) & 0xffu64) as u8,
            b7 == (n >> 56u64) as u8,
    ;
}

/// Reading a stored length.
proof fn lemma_rd_len(b: Seq<u8>, p: int, n: nat)
    requires
        n < 0x1_0000_0000,
        at(b, p, length_bytes(n)),
    ensures
        b[p] < 64 || b[p] == 0x80,
        rd_len_first(b, p + 1, b[p]) == Ok::<(nat, int), RdbError>((n, p + length_bytes(n).len())),
        rd_len(b, p) == Ok::<(nat, int), RdbError>((n, p + length_bytes(n).len())),
{
    lemma_at_index(b, p, length_bytes(n), 0);
    if n >= 64 {
        let x = (n % 0x1_0000_0000) as u32;
        assert(x == n);
        lemma_at_split(b, p, seq![0x80u8], be32_bytes(x));
        lemma_be32(x);
    }
}

/// **Length round trip**: a length below 2^32, as written, reads back as
/// itself and takes exactly its own bytes, whatever follows them.
pub proof fn law_length_round_trip(n: nat, rest: Seq<u8>)
    requires
        n < 0x1_0000_0000,
    ensures
        rd_len(length_bytes(n) + rest, 0) == Ok::<(nat, int), RdbError>((n, length_bytes(n).len() as int)),
{
    let b = length_bytes(n) + rest;
    assert(b.subrange(0, length_bytes(n).len() as int) =~= length_bytes(n));
    lemma_rd_len(b, 0, n);
}

/// Reading a stored string.
proof fn lemma_rd_str(b: Seq<u8>, p: int, s: Seq<char>)
    requires
        storable_text(s),
        at(b, p, string_bytes(s)),
    ensures
        b[p] < 64 || b[p] == 0x80,
        rd_str_first(b, p + 1, b[p]) == Ok::<(Seq<char>, int), RdbError>((s, p + string_bytes(s).len())),
        rd_str(b, p) == Ok::<(Seq<char>, int), RdbError>((s, p + string_bytes(s).len())),
{
    let e = encode_utf8(s);
    lemma_at_split(b, p, length_bytes(e.len()), e);
    lemma_rd_len(b, p, e.len());
    let q = p + length_bytes(e.len()).len();
    assert(b.subrange(q, q + e.len()) == e);
    assert(text_of(e) == s);
}

pub proof fn lemma_tokens()
    ensures
        is_string_token("string"@),
        !is_list_token("string"@),
        is_list_token("list"@),
        !is_string_token("list"@),
        storable_text("string"@),
        storable_text("list"@),
{
    reveal_strlit("string");
    reveal_strlit("list");
    reveal_strlit("STRING");
    reveal_strlit("LIST");
    assert(ascii_upper("string"@) =~= "STRING"@);
    assert(ascii_upper("list"@) =~= "LIST"@);
    lemma_encode_ascii("string"@);
    lemma_encode_ascii("list"@);
}

/// `x` starts `y`.
pub open spec fn is_prefix(x: Seq<u8>, y: Seq<u8>) -> bool {
    x.len() <= y.len() && y.subrange(0, x.len() as int) == x
}

proof fn lemma_prefix_at(b: Seq<u8>, p: int, x: Seq<u8>, y: Seq<u8>)
    requires
        at(b, p, y),
        is_prefix(x, y),
    ensures
        at(b, p, x),
{
    assert(b.subrange(p, p + x.len()) =~= x) by {
        assert forall|i: int| 0 <= i < x.len() implies #[trigger] b.subrange(p, p + x.len())[i] == x[i] by {
            assert(b.subrange(p, p + y.len())[i] == y[i]);
            assert(y.subrange(0, x.len() as int)[i] == y[i]);
        }
    }
}

proof fn lemma_prefix_trans(x: Seq<u8>, y: Seq<u8>, z: Seq<u8>)
    requires
        is_prefix(x, y),
        is_prefix(y, z),
    ensures
        is_prefix(x, z),
{
    assert(z.subrange(0, x.len() as int) =~= x) by {
        assert forall|i: int| 0 <= i < x.len() implies #[trigger] z.subrange(0, x.len() as int)[i] == x[i] by {
            assert(z.subrange(0, y.len() as int)[i] == y[i]);
            assert(y.subrange(0, x.len() as int)[i] == x[i]);
        }
    }
}

proof fn lemma_prefix_concat(x: Seq<u8>, y: Seq<u8>)
    ensures
        is_prefix(x, x + y),
{
    assert((x + y).subrange(0, x.len() as int) =~= x);
}

/// All items of a list are storable strings.
pub open spec fn storable_items(items: Seq<RedisValue>) -> bool {
    forall|i: int| 0 <= i < items.len() ==> (#[trigger] items[i] matches RedisValue::Text(s) && storable_text(s))
}

proof fn lemma_items_prefix(k: Seq<char>, items: Seq<RedisValue>, j: int)
    requires
        0 <= j <= items.len(),
    ensures
        is_prefix(list_items_bytes(k, items.take(j)), list_items_bytes(k, items)),
    decreases items.len() - j,
{
    if j == items.len() {
        assert(items.take(j) =~= items);
        assert(list_items_bytes(k, items).subrange(0, list_items_bytes(k, items).len() as int) =~= list_items_bytes(k, items));
    } else {
        lemma_items_prefix(k, items, j + 1);
        assert(items.take(j + 1).drop_last() =~= items.take(j));
        let x = list_items_bytes(k, items.take(j));
        let y = list_items_bytes(k, items.take(j + 1));
        assert(y == x + match items[j] {
            RedisValue::Text(s) => value_bytes(k, s),
            RedisValue::List(_) => Seq::empty(),
        });
        lemma_prefix_concat(x, match items[j] {
            RedisValue::Text(s) => value_bytes(k, s),
            RedisValue::List(_) => Seq::empty(),
        });
        lemma_prefix_trans(x, y, list_items_bytes(k, items));
    }
}

/// Reading one list item: its marker, key and value.
proof fn lemma_rd_list_item(
    b: Seq<u8>,
    q: int,
    k: Seq<char>,
    s: Seq<char>,
    m: nat,
    key: Option<Seq<char>>,
    vals: Seq<RedisValue>,
)
    requires
        storable_text(k),
        storable_text(s),
        at(b, q, value_bytes(k, s)),
    ensures
        rd_list_items(b, q, m + 1, key, vals) == rd_list_items(
            b,
            q + value_bytes(k, s).len(),
            m,
            if key is None { Some(k) } else { key },
            vals.push(RedisValue::Text(s)),
        ),
{
    lemma_at_split(b, q, seq![0x00u8] + string_bytes(k), string_bytes(s));
    lemma_at_split(b, q, seq![0x00u8], string_bytes(k));
    lemma_at_index(b, q, seq![0x00u8], 0);
    lemma_rd_str(b, q + 1, k);
    lemma_rd_str(b, q + 1 + string_bytes(k).len(), s);
    assert((m + 1 - 1) as nat == m);
}

/// Reading the first `j` items of a list.
proof fn lemma_rd_items_upto(b: Seq<u8>, q0: int, k: Seq<char>, items: Seq<RedisValue>, j: int)
    requires
        storable_text(k),
        storable_items(items),
        0 <= j <= items.len(),
        at(b, q0, list_items_bytes(k, items)),
    ensures
        rd_list_items(b, q0, items.len(), None, Seq::empty()) == rd_list_items(
            b,
            q0 + list_items_bytes(k, items.take(j)).len(),
            (items.len() - j) as nat,
            if j == 0 { None } else { Some(k) },
            items.take(j),
        ),
    decreases j,
{
    if j == 0 {
        assert(items.take(0) =~= Seq::<RedisValue>::empty());
    } else {
        lemma_rd_items_upto(b, q0, k, items, j - 1);
        let prev = items.take(j - 1);
        let t = items.take(j);
        assert(t.drop_last() =~= prev);
        let s = items[j - 1]->Text_0;
        assert(items[j - 1] == RedisValue::Text(s));
        assert(list_items_bytes(k, t) == list_items_bytes(k, prev) + value_bytes(k, s));
        lemma_items_prefix(k, items, j);
        lemma_prefix_at(b, q0, list_items_bytes(k, t), list_items_bytes(k, items));
        lemma_at_split(b, q0, list_items_bytes(k, prev), value_bytes(k, s));
        lemma_rd_list_item(
            b,
            q0 + list_items_bytes(k, prev).len(),
            k,
            s,
            (items.len() - j) as nat,
            if j - 1 == 0 { None } else { Some(k) },
            prev,
        );
        assert(prev.push(RedisValue::Text(s)) =~= t);
        assert(((items.len() - j) as nat + 1) as nat == (items.len() - (j - 1)) as nat);
    }
}

/// Reading a whole non-empty list: the key of its first item, its items.
proof fn lemma_rd_items(b: Seq<u8>, q0: int, k: Seq<char>, items: Seq<RedisValue>)
    requires
        storable_text(k),
        storable_items(items),
        items.len() > 0,
        at(b, q0, list_items_bytes(k, items)),
    ensures
        rd_list_items(b, q0, items.len(), None, Seq::empty()) == Ok::<(Option<Seq<char>>, Seq<RedisValue>, int), RdbError>(
            (Some(k), items, q0 + list_items_bytes(k, items).len()),
        ),
{
    lemma_rd_items_upto(b, q0, k, items, items.len() as int);
    assert(items.take(items.len() as int) =~= items);
}

/// Reading a string entry record.
proof fn lemma_rd_text_entry(
    b: Seq<u8>,
    p: int,
    k: Seq<char>,
    s: Seq<char>,
    d: Seq<(Seq<char>, RedisValue)>,
    e: Seq<(Seq<char>, u64)>,
)
    requires
        storable_text(k),
        storable_text(s),
        at(b, p, entry_bytes(k, RedisValue::Text(s))),
    ensures
        rd_records(b, p, d, e) == rd_records(
            b,
            p + entry_bytes(k, RedisValue::Text(s)).len(),
            d.push((k, RedisValue::Text(s))),
            e,
        ),
{
    lemma_tokens();
    let tok = string_bytes("string"@);
    lemma_at_split(b, p, tok, value_bytes(k, s));
    lemma_rd_str(b, p, "string"@);
    let r = p + tok.len();
    lemma_at_split(b, r, seq![0x00u8] + string_bytes(k), string_bytes(s));
    lemma_at_split(b, r, seq![0x00u8], string_bytes(k));
    lemma_at_index(b, r, seq![0x00u8], 0);
    lemma_rd_str(b, r + 1, k);
    lemma_rd_str(b, r + 1 + string_bytes(k).len(), s);
}

/// Reading a list entry record.
proof fn lemma_rd_list_entry(
    b: Seq<u8>,
    p: int,
    k: Seq<char>,
    items: Seq<RedisValue>,
    d: Seq<(Seq<char>, RedisValue)>,
    e: Seq<(Seq<char>, u64)>,
)
    requires
        storable_text(k),
        storable_items(items),
        0 < items.len() < 0x1_0000_0000,
        at(b, p, entry_bytes(k, RedisValue::List(items))),
    ensures
        rd_records(b, p, d, e) == rd_records(
            b,
            p + entry_bytes(k, RedisValue::List(items)).len(),
            d.push((k, RedisValue::List(items))),
            e,
        ),
{
    lemma_tokens();
    let tok = string_bytes("list"@);
    let n = items.len();
    lemma_at_split(b, p, tok + length_bytes(n), list_items_bytes(k, items));
    lemma_at_split(b, p, tok, length_bytes(n));
    lemma_rd_str(b, p, "list"@);
    let r = p + tok.len();
    lemma_rd_len(b, r, n);
    let r1 = r + length_bytes(n).len();
    lemma_rd_items(b, r1, k, items);
}

/// Reading one entry record.
proof fn lemma_rd_entry(
    b: Seq<u8>,
    p: int,
    k: Seq<char>,
    v: RedisValue,
    d: Seq<(Seq<char>, RedisValue)>,
    e: Seq<(Seq<char>, u64)>,
)
    requires
        storable_entry(k, v),
        at(b, p, entry_bytes(k, v)),
    ensures
        rd_records(b, p, d, e) == rd_records(b, p + entry_bytes(k, v).len(), d.push((k, v)), e),
{
    match v {
        RedisValue::Text(s) => lemma_rd_text_entry(b, p, k, s, d, e),
        RedisValue::List(items) => {
            assert(storable_items(items));
            lemma_rd_list_entry(b, p, k, items, d, e);
        },
    }
}

/// Reading one expiry record.
proof fn lemma_rd_expiry(
    b: Seq<u8>,
    p: int,
    k: Seq<char>,
    t: u64,
    d: Seq<(Seq<char>, RedisValue)>,
    e: Seq<(Seq<char>, u64)>,
)
    requires
        storable_expiry_key(k),
        at(b, p, expiry_bytes(k, t)),
    ensures
        rd_records(b, p, d, e) == rd_records(b, p + expiry_bytes(k, t).len(), d, e.push((k, t))),
{
    lemma_at_split(b, p, string_bytes(k) + seq![0xFCu8], le64_bytes(t));
    lemma_at_split(b, p, string_bytes(k), seq![0xFCu8]);
    lemma_rd_str(b, p, k);
    let r = p + string_bytes(k).len();
    lemma_at_index(b, r, seq![0xFCu8], 0);
    lemma_le64(t);
    assert(b.subrange(r + 1, r + 9) == le64_bytes(t));
}

proof fn lemma_entries_prefix(d: Seq<(Seq<char>, RedisValue)>, j: int)
    requires
        0 <= j <= d.len(),
    ensures
        is_prefix(entries_bytes(d.take(j)), entries_bytes(d)),
    decreases d.len() - j,
{
    if j == d.len() {
        assert(d.take(j) =~= d);
        assert(entries_bytes(d).subrange(0, entries_bytes(d).len() as int) =~= entries_bytes(d));
    } else {
        lemma_entries_prefix(d, j + 1);
        assert(d.take(j + 1).drop_last() =~= d.take(j));
        lemma_prefix_concat(entries_bytes(d.take(j)), entry_bytes(d[j].0, d[j].1));
        lemma_prefix_trans(entries_bytes(d.take(j)), entries_bytes(d.take(j + 1)), entries_bytes(d));
    }
}

proof fn lemma_expiries_prefix(e: Seq<(Seq<char>, u64)>, j: int)
    requires
        0 <= j <= e.len(),
    ensures
        is_prefix(expiries_bytes(e.take(j)), expiries_bytes(e)),
    decreases e.len() - j,
{
    if j == e.len() {
        assert(e.take(j) =~= e);
        assert(expiries_bytes(e).subrange(0, expiries_bytes(e).len() as int) =~= expiries_bytes(e));
    } else {
        lemma_expiries_prefix(e, j + 1);
        assert(e.take(j + 1).drop_last() =~= e.take(j));
        lemma_prefix_concat(expiries_bytes(e.take(j)), expiry_bytes(e[j].0, e[j].1));
        lemma_prefix_trans(expiries_bytes(e.take(j)), expiries_bytes(e.take(j + 1)), expiries_bytes(e));
    }
}

/// Reading the first `j` entry records.
proof fn lemma_rd_entries_upto(b: Seq<u8>, p0: int, d: Seq<(Seq<char>, RedisValue)>, j: int)
    requires
        forall|i: int| 0 <= i < d.len() ==> storable_entry(#[trigger] d[i].0, d[i].1),
        0 <= j <= d.len(),
        at(b, p0, entries_bytes(d)),
    ensures
        rd_records(b, p0, Seq::empty(), Seq::empty()) == rd_records(
            b,
            p0 + entries_bytes(d.take(j)).len(),
            d.take(j),
            Seq::empty(),
        ),
    decreases j,
{
    if j == 0 {
        assert(d.take(0) =~= Seq::<(Seq<char>, RedisValue)>::empty());
    } else {
        lemma_rd_entries_upto(b, p0, d, j - 1);
        let prev = d.take(j - 1);
        let t = d.take(j);
        assert(t.drop_last() =~= prev);
        assert(entries_bytes(t) == entries_bytes(prev) + entry_bytes(d[j - 1].0, d[j - 1].1));
        lemma_entries_prefix(d, j);
        lemma_prefix_at(b, p0, entries_bytes(t), entries_bytes(d));
        lemma_at_split(b, p0, entries_bytes(prev), entry_bytes(d[j - 1].0, d[j - 1].1));
        lemma_rd_entry(b, p0 + entries_bytes(prev).len(), d[j - 1].0, d[j - 1].1, prev, Seq::empty());
        assert(prev.push((d[j - 1].0, d[j - 1].1)) =~= t);
    }
}

/// Reading the first `j` expiry records, after the entries `d`.
proof fn lemma_rd_expiries_upto(
    b: Seq<u8>,
    p0: int,
    d: Seq<(Seq<char>, RedisValue)>,
    e: Seq<(Seq<char>, u64)>,
    j: int,
)
    requires
        forall|i: int| 0 <= i < e.len() ==> storable_expiry_key(#[trigger] e[i].0),
        0 <= j <= e.len(),
        at(b, p0, expiries_bytes(e)),
    ensures
        rd_records(b, p0, d, Seq::empty()) == rd_records(b, p0 + expiries_bytes(e.take(j)).len(), d, e.take(j)),
    decreases j,
{
    if j == 0 {
        assert(e.take(0) =~= Seq::<(Seq<char>, u64)>::empty());
    } else {
        lemma_rd_expiries_upto(b, p0, d, e, j - 1);
        let prev = e.take(j - 1);
        let t = e.take(j);
        assert(t.drop_last() =~= prev);
        assert(expiries_bytes(t) == expiries_bytes(prev) + expiry_bytes(e[j - 1].0, e[j - 1].1));
        lemma_expiries_prefix(e, j);
        lemma_prefix_at(b, p0, expiries_bytes(t), expiries_bytes(e));
        lemma_at_split(b, p0, expiries_bytes(prev), expiry_bytes(e[j - 1].0, e[j - 1].1));
        lemma_rd_expiry(b, p0 + expiries_bytes(prev).len(), e[j - 1].0, e[j - 1].1, d, prev);
        assert(prev.push((e[j - 1].0, e[j - 1].1)) =~= t);
    }
}

/// The database selector: `0xFE` and the number 0.
proof fn lemma_rd_selector(b: Seq<u8>, p: int)
    requires
        0 <= p,
        p + 2 <= b.len(),
        b[p] == 0xFEu8,
        b[p + 1] == 0x00u8,
    ensures
        rd_records(b, p, Seq::empty(), Seq::empty()) == rd_records(b, p + 2, Seq::empty(), Seq::empty()),
{
    assert(rd_len(b, p + 1) == Ok::<(nat, int), RdbError>((0, p + 2)));
}

/// The end of the data ends the records.
proof fn lemma_rd_end(b: Seq<u8>, d: Seq<(Seq<char>, RedisValue)>, e: Seq<(Seq<char>, u64)>)
    ensures
        rd_records(b, b.len() as int, d, e) == Ok::<(Seq<(Seq<char>, RedisValue)>, Seq<(Seq<char>, u64)>), RdbError>((d, e)),
{
}

/// A snapshot starts with the header, then its records.
proof fn lemma_load_header(b: Seq<u8>, body: Seq<u8>)
    requires
        b == header_bytes() + body,
    ensures
        spec_load(b) == rd_records(b, 9, Seq::empty(), Seq::empty()),
{
    assert(b.subrange(0, 5) =~= seq![82u8, 69u8, 68u8, 73u8, 83u8]);
}

/// **Snapshot round trip**: reading back a snapshot written from the
/// entries `d` and expiry times `e` gives `d` and `e`, in order, when each
/// entry and expiry is one a snapshot keeps (`storable`).
#[verifier::rlimit(60)]
pub proof fn law_snapshot_round_trip(d: Seq<(Seq<char>, RedisValue)>, e: Seq<(Seq<char>, u64)>)
    requires
        storable(d, e),
    ensures
        spec_load(rdb_image(d, e)) == Ok::<(Seq<(Seq<char>, RedisValue)>, Seq<(Seq<char>, u64)>), RdbError>((d, e)),
{
    let b = rdb_image(d, e);
    let eb = entries_bytes(d);
    let xb = expiries_bytes(e);
    let body = seq![0xFEu8, 0x00u8] + eb + xb;
    assert(b == header_bytes() + body);
    lemma_load_header(b, body);
    let p0: int = 11;
    let p1 = p0 + eb.len();
    assert(b.len() == p1 + xb.len());
    assert(b[9] == 0xFEu8 && b[10] == 0x00u8) by {
        assert(b[9] == body[0]);
        assert(b[10] == body[1]);
    }
    lemma_rd_selector(b, 9);
    assert(at(b, p0, eb)) by {
        assert forall|i: int| 0 <= i < eb.len() implies #[trigger] b.subrange(p0, p0 + eb.len())[i] == eb[i] by {
            assert(b[p0 + i] == body[2 + i]);
        }
        assert(b.subrange(p0, p0 + eb.len()) =~= eb);
    }
    assert(at(b, p1, xb)) by {
        assert forall|i: int| 0 <= i < xb.len() implies #[trigger] b.subrange(p1, p1 + xb.len())[i] == xb[i] by {
            assert(b[p1 + i] == body[2 + eb.len() + i]);
        }
        assert(b.subrange(p1, p1 + xb.len()) =~= xb);
    }
    lemma_rd_entries_upto(b, p0, d, d.len() as int);
    assert(d.take(d.len() as int) =~= d);
    lemma_rd_expiries_upto(b, p1, d, e, e.len() as int);
    assert(e.take(e.len() as int) =~= e);
    lemma_rd_end(b, d, e);
}
/// A list of each key of `m` once, with its value, inserted in order,
/// makes `m`.
pub proof fn lemma_map_of_enumerates<K, V>(s: Seq<(K, V)>, m: Map<K, V>)
    requires
        enumerates(s, m),
    ensures
        map_of(s) == m,
    decreases s.len(),
{
    if s.len() == 0 {
        assert(map_of(s) =~= m) by {
            assert forall|k: K| !m.contains_key(k) by {
                if m.contains_key(k) {
                    let i = choose|i: int| 0 <= i < s.len() && #[trigger] s[i].0 == k;
                }
            }
        }
    } else {
        let last = s.last();
        let init = s.drop_last();
        let m2 = m.remove(last.0);
        assert(enumerates(init, m2)) by {
            assert forall|i: int| 0 <= i < init.len() implies m2.contains_key(#[trigger] init[i].0) && m2[init[i].0] == init[i].1 by {
                assert(init[i] == s[i]);
                assert(s[i].0 != s[s.len() - 1].0);
            }
            assert forall|k: K| m2.contains_key(k) implies exists|i: int| 0 <= i < init.len() && #[trigger] init[i].0 == k by {
                let i = choose|i: int| 0 <= i < s.len() && #[trigger] s[i].0 == k;
                assert(i != s.len() - 1);
                assert(init[i] == s[i]);
            }
            assert forall|i: int, j: int| 0 <= i < j < init.len() implies init[i].0 != init[j].0 by {
                assert(init[i] == s[i]);
                assert(init[j] == s[j]);
            }
        }
        lemma_map_of_enumerates(init, m2);
        assert(m.contains_key(last.0) && m[last.0] == last.1) by {
            assert(s[s.len() - 1] == last);
        }
        assert(map_of(s) =~= m);
    }
}

/// A store whose every entry and expiry a snapshot keeps.
pub open spec fn storable_db(db: DbView) -> bool {
    &&& forall|k: Seq<char>| #[trigger] db.data.contains_key(k) ==> storable_entry(k, db.data[k])
    &&& forall|k: Seq<char>| #[trigger] db.expirations.contains_key(k) ==> storable_expiry_key(k)
}

/// The expiry times of `m` as a snapshot taken (or read) at time `now`
/// holds them: a time already past is `now`.
pub open spec fn times_not_before(m: Map<Seq<char>, u64>, now: u64) -> Map<Seq<char>, u64> {
    Map::new(|k: Seq<char>| m.contains_key(k), |k: Seq<char>| not_before_time(m[k], now))
}

proof fn lemma_enumerates_not_before(e: Seq<(Seq<char>, u64)>, m: Map<Seq<char>, u64>, now: u64)
    requires
        enumerates(e, m),
    ensures
        enumerates(not_before(e, now), times_not_before(m, now)),
{
    let e2 = not_before(e, now);
    let m2 = times_not_before(m, now);
    assert forall|k: Seq<char>| m2.contains_key(k) implies exists|i: int| 0 <= i < e2.len() && #[trigger] e2[i].0 == k by {
        let i = choose|i: int| 0 <= i < e.len() && #[trigger] e[i].0 == k;
        assert(e2[i].0 == k);
    }
}

/// **Saving then loading restores the store**: reading a snapshot of `db`
/// taken at `saved_at`, at time `loaded_at`, gives entries and expiry times
/// that, inserted in order (as `DB::new` does), make up `db` again; an
/// expiry time that had passed at the save or at the load comes back as
/// that time (the key stays expired).
pub proof fn law_snapshot_restores_store(bytes: Seq<u8>, db: DbView, saved_at: u64, loaded_at: u64)
    requires
        is_snapshot_of(bytes, db, saved_at),
        storable_db(db),
    ensures
        spec_load(bytes) matches Ok((d, e)) && map_of(d) == db.data && map_of(not_before(e, loaded_at))
            == times_not_before(times_not_before(db.expirations, saved_at), loaded_at),
{
    let (d, e) = choose|d: Seq<(Seq<char>, RedisValue)>, e: Seq<(Seq<char>, u64)>|
        enumerates(d, db.data) && enumerates(e, db.expirations) && bytes == #[trigger] rdb_image(
            d,
            not_before(e, saved_at),
        );
    let saved = not_before(e, saved_at);
    assert(storable(d, saved)) by {
        assert forall|i: int| 0 <= i < d.len() implies storable_entry(#[trigger] d[i].0, d[i].1) by {
            assert(db.data.contains_key(d[i].0));
        }
        assert forall|j: int| 0 <= j < saved.len() implies storable_expiry_key(#[trigger] saved[j].0) by {
            assert(saved[j].0 == e[j].0);
            assert(db.expirations.contains_key(e[j].0));
        }
    }
    law_snapshot_round_trip(d, saved);
    lemma_map_of_enumerates(d, db.data);
    lemma_enumerates_not_before(e, db.expirations, saved_at);
    lemma_enumerates_not_before(saved, times_not_before(db.expirations, saved_at), loaded_at);
    lemma_map_of_enumerates(
        not_before(saved, loaded_at),
        times_not_before(times_not_before(db.expirations, saved_at), loaded_at),
    );
}
} // verus!
