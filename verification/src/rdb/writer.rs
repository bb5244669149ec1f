//! The snapshot format: how the store is written out.
use vstd::prelude::*;
use vstd::utf8::*;
use crate::database::store::{RedisObject, RedisValue, entry_views, expiry_views, lemma_object_values, object_values};
use crate::resp::types::{lemma_encode_concat, push_str};

verus! {

/// A 32-bit number, most significant byte first.
pub open spec fn be32_bytes(n: u32) -> Seq<u8> {
    seq![(n >> 24u32) as u8, ((n >> 16u32) & 0xffu32) as u8, ((n >> 8u32) & 0xffu32) as u8, (n & 0xffu32) as u8]
}

/// A 64-bit number, least significant byte first.
pub open spec fn le64_bytes(n: u64) -> Seq<u8> {
    seq![
        (n & 0xffu64) as u8,
        ((n >> 8u64) & 0xffu64) as u8,
        ((n >> 16u64) & 0xffu64) as u8,
        ((n >> 24u64) & 0xffu64) as u8,
        ((n >> 32u64) & 0xffu64) as u8,
        ((n >> 40u64) & 0xffu64) as u8,
        ((n >> 48u64) & 0xffu64) as u8,
        (n >> 56u64) as u8,
    ]
}

/// A length: one byte below 64, else `0x80` and its low 32 bits.
pub open spec fn length_bytes(len: nat) -> Seq<u8> {
    if len < 64 {
        seq![len as u8]
    } else {
        seq![0x80u8] + be32_bytes((len % 0x1_0000_0000) as u32)
    }
}

/// A string: its byte length, then its UTF-8 bytes.
pub open spec fn string_bytes(s: Seq<char>) -> Seq<u8> {
    length_bytes(encode_utf8(s).len()) + encode_utf8(s)
}

/// A key and a string value, after the string type marker `0x00`.
pub open spec fn value_bytes(k: Seq<char>, v: Seq<char>) -> Seq<u8> {
    seq![0x00u8] + string_bytes(k) + string_bytes(v)
}

/// The items of a list, each with its key; items that are not strings
/// are left out.
pub open spec fn list_items_bytes(k: Seq<char>, items: Seq<RedisValue>) -> Seq<u8>
    decreases items.len(),
{
    if items.len() == 0 {
        Seq::empty()
    } else {
        list_items_bytes(k, items.drop_last()) + match items.last() {
            RedisValue::Text(s) => value_bytes(k, s),
            RedisValue::List(_) => Seq::empty(),
        }
    }
}

/// One entry: `"string"` and the value, or `"list"`, the item count and
/// the items.
pub open spec fn entry_bytes(k: Seq<char>, v: RedisValue) -> Seq<u8> {
    match v {
        RedisValue::Text(s) => string_bytes("string"@) + value_bytes(k, s),
        RedisValue::List(items) => string_bytes("list"@) + length_bytes(items.len()) + list_items_bytes(
            k,
            items,
        ),
    }
}

pub open spec fn entries_bytes(d: Seq<(Seq<char>, RedisValue)>) -> Seq<u8>
    decreases d.len(),
{
    if d.len() == 0 {
        Seq::empty()
    } else {
        entries_bytes(d.drop_last()) + entry_bytes(d.last().0, d.last().1)
    }
}

/// One expiry: the key, the opcode `0xFC` and the time.
pub open spec fn expiry_bytes(k: Seq<char>, at: u64) -> Seq<u8> {
    string_bytes(k) + seq![0xFCu8] + le64_bytes(at)
}

pub open spec fn expiries_bytes(e: Seq<(Seq<char>, u64)>) -> Seq<u8>
    decreases e.len(),
{
    if e.len() == 0 {
        Seq::empty()
    } else {
        expiries_bytes(e.drop_last()) + expiry_bytes(e.last().0, e.last().1)
    }
}

/// The database section: selector `0xFE`, database 0, the entries, the
/// expiries.
pub open spec fn db_bytes(d: Seq<(Seq<char>, RedisValue)>, e: Seq<(Seq<char>, u64)>) -> Seq<u8> {
    seq![0xFEu8, 0x00u8] + entries_bytes(d) + expiries_bytes(e)
}

/// The header `REDIS0001`.
pub open spec fn header_bytes() -> Seq<u8> {
    seq![82u8, 69u8, 68u8, 73u8, 83u8, 48u8, 48u8, 48u8, 49u8]
}

/// The later of `at` and `now`: a snapshot taken at `now` never holds an
/// expiry time before it.
pub open spec fn not_before_time(at: u64, now: u64) -> u64 {
    if at < now { now } else { at }
}

/// Expiry times as a snapshot taken at `now` holds them.
pub open spec fn not_before(e: Seq<(Seq<char>, u64)>, now: u64) -> Seq<(Seq<char>, u64)> {
    e.map_values(|p: (Seq<char>, u64)| (p.0, not_before_time(p.1, now)))
}

/// A whole snapshot.
pub open spec fn rdb_image(d: Seq<(Seq<char>, RedisValue)>, e: Seq<(Seq<char>, u64)>) -> Seq<u8> {
    header_bytes() + db_bytes(d, e)
}

/// Writes a length.
fn write_length(w: &mut Vec<u8>, len: u64)
    ensures
        final(w)@ == old(w)@ + length_bytes(len as nat),
{
    if len < 64 {
        w.push(len as u8);
    } else {
        w.push(0x80);
        let n: u32 = (len % 4294967296) as u32;
        w.push((n >> 24u32) as u8);
        w.push(((n >> 16u32) & 0xffu32) as u8);
        w.push(((n >> 8u32) & 0xffu32) as u8);
        w.push((n & 0xffu32) as u8);
    }
    assert(w@ =~= old(w)@ + length_bytes(len as nat));
}

/// Writes a string.
fn write_string(w: &mut Vec<u8>, s: &str)
    ensures
        final(w)@ == old(w)@ + string_bytes(s@),
{
    let n = s.as_bytes().len();
    write_length(w, n as u64);
    push_str(w, s);
    assert(w@ =~= old(w)@ + string_bytes(s@));
}

/// Writes a key and a string value.
fn write_value(w: &mut Vec<u8>, key: &str, value: &str)
    ensures
        final(w)@ == old(w)@ + value_bytes(key@, value@),
{
    w.push(0x00);
    write_string(w, key);
    write_string(w, value);
    assert(w@ =~= old(w)@ + value_bytes(key@, value@));
}

/// Writes an expiry, at time `now`: a time already past is written as
/// `now`.
fn write_expiry(w: &mut Vec<u8>, key: &str, expires_at: u64, now: u64)
    ensures
        final(w)@ == old(w)@ + expiry_bytes(key@, not_before_time(expires_at, now)),
{
    let at = if expires_at < now { now } else { expires_at };
    write_string(w, key);
    w.push(0xFC);
    w.push((at & 0xffu64) as u8);
    w.push(((at >> 8u64) & 0xffu64) as u8);
    w.push(((at >> 16u64) & 0xffu64) as u8);
    w.push(((at >> 24u64) & 0xffu64) as u8);
    w.push(((at >> 32u64) & 0xffu64) as u8);
    w.push(((at >> 40u64) & 0xffu64) as u8);
    w.push(((at >> 48u64) & 0xffu64) as u8);
    w.push((at >> 56u64) as u8);
    assert(w@ =~= old(w)@ + expiry_bytes(key@, at));
}

/// Writes one entry.
fn write_entry(w: &mut Vec<u8>, key: &String, value: &RedisObject)
    ensures
        final(w)@ == old(w)@ + entry_bytes(key@, value.value()),
{
    proof {
        reveal_strlit("string");
        reveal_strlit("list");
    }
    match value {
        RedisObject::String(s) => {
            write_string(w, "string");
            write_value(w, key.as_str(), s.as_str());
            assert(w@ =~= old(w)@ + entry_bytes(key@, value.value()));
        },
        RedisObject::List(l) => {
            write_string(w, "list");
            write_length(w, l.len() as u64);
            let ghost head = w@;
            let ghost items = object_values(l@);
            proof {
                lemma_object_values(l@);
                assert(items.subrange(0, 0) =~= Seq::<RedisValue>::empty());
            }
            let mut i: usize = 0;
            while i < l.len()
                invariant
                    i <= l@.len(),
                    items == object_values(l@),
                    items.len() == l@.len(),
                    forall|j: int| 0 <= j < l@.len() ==> #[trigger] items[j] == l@[j].value(),
                    w@ == head + list_items_bytes(key@, items.subrange(0, i as int)),
                decreases l@.len() - i,
            {
                let ghost before = w@;
                match &l[i] {
                    RedisObject::String(s) => {
                        write_value(w, key.as_str(), s.as_str());
                    },
                    RedisObject::List(_) => {},
                }
                proof {
                    let t = items.subrange(0, i + 1);
                    assert(t.drop_last() =~= items.subrange(0, i as int));
                }
                assert(w@ =~= head + list_items_bytes(key@, items.subrange(0, i + 1)));
                i = i + 1;
            }
            assert(items.subrange(0, l@.len() as int) =~= items);
            assert(w@ =~= old(w)@ + entry_bytes(key@, value.value()));
        },
    }
}

/// Writes the database section.
fn write_db(w: &mut Vec<u8>, db: &Vec<(String, RedisObject)>, expirations: &Vec<(String, u64)>, now: u64)
    ensures
        final(w)@ == old(w)@ + db_bytes(entry_views(db@), not_before(expiry_views(expirations@), now)),
{
    w.push(0xFE);
    write_length(w, 0);
    let ghost head = w@;
    let ghost d = entry_views(db@);
    assert(d.subrange(0, 0) =~= Seq::<(Seq<char>, RedisValue)>::empty());
    let mut i: usize = 0;
    while i < db.len()
        invariant
            i <= db@.len(),
            d == entry_views(db@),
            w@ == head + entries_bytes(d.subrange(0, i as int)),
        decreases db@.len() - i,
    {
        write_entry(w, &db[i].0, &db[i].1);
        proof {
            let t = d.subrange(0, i + 1);
            assert(t.drop_last() =~= d.subrange(0, i as int));
        }
        assert(w@ =~= head + entries_bytes(d.subrange(0, i + 1)));
        i = i + 1;
    }
    assert(d.subrange(0, db@.len() as int) =~= d);
    let ghost mid = w@;
    let ghost e = not_before(expiry_views(expirations@), now);
    assert(e.subrange(0, 0) =~= Seq::<(Seq<char>, u64)>::empty());
    let mut j: usize = 0;
    while j < expirations.len()
        invariant
            j <= expirations@.len(),
            e == not_before(expiry_views(expirations@), now),
            w@ == mid + expiries_bytes(e.subrange(0, j as int)),
        decreases expirations@.len() - j,
    {
        write_expiry(w, expirations[j].0.as_str(), expirations[j].1, now);
        proof {
            let t = e.subrange(0, j + 1);
            assert(t.drop_last() =~= e.subrange(0, j as int));
        }
        assert(w@ =~= mid + expiries_bytes(e.subrange(0, j + 1)));
        j = j + 1;
    }
    assert(e.subrange(0, expirations@.len() as int) =~= e);
    assert(w@ =~= old(w)@ + db_bytes(d, e));
}

/// The snapshot, taken at time `now`, of the given entries and expiry
/// times: the header, then the database section. An expiry time already
/// past is written as `now`.
pub fn save_rdb(db: &Vec<(String, RedisObject)>, expirations: &Vec<(String, u64)>, now: u64) -> (r: Vec<u8>)
    ensures
        r@ == rdb_image(entry_views(db@), not_before(expiry_views(expirations@), now)),
{
    let mut w: Vec<u8> = Vec::new();
    w.push(82);
    w.push(69);
    w.push(68);
    w.push(73);
    w.push(83);
    w.push(48);
    w.push(48);
    w.push(48);
    w.push(49);
    assert(w@ =~= header_bytes());
    write_db(&mut w, db, expirations, now);
    w
}

} // verus!
