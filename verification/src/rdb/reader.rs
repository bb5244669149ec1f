//! The snapshot format: how a snapshot is read back.
use vstd::prelude::*;
use vstd::slice::slice_subrange;
use vstd::utf8::*;
use crate::database::store::{RedisObject, RedisValue, entry_views, expiry_views, lemma_object_values, object_values};
use crate::rdb::writer::{not_before, not_before_time};
use crate::utils::clock::now_millis;
use crate::utils::text::{ascii_upper, str_eq, to_ascii_uppercase};

verus! {

/// Why a snapshot could not be read.
#[derive(Debug, Clone, Copy, PartialEq, Eq, Structural)]
pub enum RdbError {
    /// The data ends in the middle of a record.
    UnexpectedEof,
    /// The data does not start with `REDIS`.
    InvalidHeader,
    /// A string entry whose value does not start with `0x00`.
    StringValueMarker(u8),
    /// A list item that does not start with `0x00`.
    ListItemMarker(u8),
    /// A record that is neither an entry nor an expiry; holds its first
    /// byte.
    UnknownOpcode(u8),
    /// A length whose first byte is neither below 64 nor `0x80`.
    UnsupportedLength(u8),
}

/// `String::from_utf8_lossy`: the text of `bytes`, with each invalid
/// sequence replaced by U+FFFD.
pub uninterp spec fn lossy_utf8(bytes: Seq<u8>) -> Seq<char>;

/// `String::from_utf8_lossy(bytes).to_string()`: the text the bytes encode,
/// invalid sequences replaced by U+FFFD; valid UTF-8 is decoded unchanged.
#[verifier::external_body]
fn utf8_lossy_string(bytes: &[u8]) -> (r: String)
    ensures
        r@ == lossy_utf8(bytes@),
        valid_utf8(bytes@) ==> r@ == decode_utf8(bytes@),
{
    String::from_utf8_lossy(bytes).to_string()
}

/// A 32-bit number, most significant byte first.
pub open spec fn be32_value(s: Seq<u8>) -> u32 {
    ((s[0] as u32) << 24u32) | ((s[1] as u32) << 16u32) | ((s[2] as u32) << 8u32) | (s[3] as u32)
}

/// A 64-bit number, least significant byte first.
pub open spec fn le64_value(s: Seq<u8>) -> u64 {
    (s[0] as u64) | ((s[1] as u64) << 8u64) | ((s[2] as u64) << 16u64) | ((s[3] as u64) << 24u64)
        | ((s[4] as u64) << 32u64) | ((s[5] as u64) << 40u64) | ((s[6] as u64) << 48u64) | ((
    s[7] as u64) << 56u64)
}

/// The reads of the format, from position `p`: each gives what it read and
/// the position after it.
pub open spec fn rd_byte(b: Seq<u8>, p: int) -> Result<(u8, int), RdbError> {
    if 0 <= p < b.len() {
        Ok((b[p], p + 1))
    } else {
        Err(RdbError::UnexpectedEof)
    }
}

pub open spec fn rd_len_first(b: Seq<u8>, p: int, first: u8) -> Result<(nat, int), RdbError> {
    if first < 64 {
        Ok((first as nat, p))
    } else if first == 0x80 {
        if 0 <= p && p + 4 <= b.len() {
            Ok((be32_value(b.subrange(p, p + 4)) as nat, p + 4))
        } else {
            Err(RdbError::UnexpectedEof)
        }
    } else {
        Err(RdbError::UnsupportedLength(first))
    }
}

pub open spec fn rd_len(b: Seq<u8>, p: int) -> Result<(nat, int), RdbError> {
    match rd_byte(b, p) {
        Ok((f, q)) => rd_len_first(b, q, f),
        Err(e) => Err(e),
    }
}

/// The text of stored bytes: valid UTF-8 decoded, anything else decoded
/// with replacement characters.
pub open spec fn text_of(bytes: Seq<u8>) -> Seq<char> {
    if valid_utf8(bytes) {
        decode_utf8(bytes)
    } else {
        lossy_utf8(bytes)
    }
}

pub open spec fn rd_str_first(b: Seq<u8>, p: int, first: u8) -> Result<(Seq<char>, int), RdbError> {
    match rd_len_first(b, p, first) {
        Ok((n, q)) => if 0 <= q && q + n <= b.len() {
            Ok((text_of(b.subrange(q, q + n)), q + n))
        } else {
            Err(RdbError::UnexpectedEof)
        },
        Err(e) => Err(e),
    }
}

pub open spec fn rd_str(b: Seq<u8>, p: int) -> Result<(Seq<char>, int), RdbError> {
    match rd_byte(b, p) {
        Ok((f, q)) => rd_str_first(b, q, f),
        Err(e) => Err(e),
    }
}

pub open spec fn rd_expiry(b: Seq<u8>, p: int) -> Result<(u64, int), RdbError> {
    if 0 <= p && p + 8 <= b.len() {
        Ok((le64_value(b.subrange(p, p + 8)), p + 8))
    } else {
        Err(RdbError::UnexpectedEof)
    }
}

/// `n` list items from `p`: the key of the first, the values, the position
/// after them.
pub open spec fn rd_list_items(
    b: Seq<u8>,
    p: int,
    n: nat,
    key: Option<Seq<char>>,
    vals: Seq<RedisValue>,
) -> Result<(Option<Seq<char>>, Seq<RedisValue>, int), RdbError>
    decreases n,
{
    if n == 0 {
        Ok((key, vals, p))
    } else {
        match rd_byte(b, p) {
            Err(e) => Err(e),
            Ok((t, q)) => if t != 0 {
                Err(RdbError::ListItemMarker(t))
            } else {
                match rd_str(b, q) {
                    Err(e) => Err(e),
                    Ok((k, q2)) => match rd_str(b, q2) {
                        Err(e) => Err(e),
                        Ok((item, q3)) => rd_list_items(
                            b,
                            q3,
                            (n - 1) as nat,
                            if key is None { Some(k) } else { key },
                            vals.push(RedisValue::Text(item)),
                        ),
                    },
                }
            },
        }
    }
}

pub proof fn lemma_reads_advance(b: Seq<u8>, p: int)
    ensures
        forall|f: u8| #[trigger] rd_len_first(b, p, f) is Ok ==> rd_len_first(b, p, f)->Ok_0.1 >= p,
        forall|f: u8| #[trigger] rd_str_first(b, p, f) is Ok ==> rd_str_first(b, p, f)->Ok_0.1 >= p,
        rd_len(b, p) matches Ok((_, q)) ==> p < q <= b.len(),
        rd_str(b, p) matches Ok((_, q)) ==> p < q <= b.len(),
        rd_expiry(b, p) matches Ok((_, q)) ==> p < q <= b.len(),
{
    assert forall|f: u8| #[trigger] rd_str_first(b, p, f) is Ok implies rd_str_first(b, p, f)->Ok_0.1 >= p by {
        match rd_len_first(b, p, f) {
            Ok((n, q)) => {},
            Err(_) => {},
        }
    }
    match rd_byte(b, p) {
        Ok((f, q)) => {
            match rd_len_first(b, q, f) {
                Ok(_) => {},
                Err(_) => {},
            }
            match rd_str_first(b, q, f) {
                Ok(_) => {},
                Err(_) => {},
            }
        },
        Err(_) => {},
    }
}

pub proof fn lemma_list_items_advance(
    b: Seq<u8>,
    p: int,
    n: nat,
    key: Option<Seq<char>>,
    vals: Seq<RedisValue>,
)
    ensures
        rd_list_items(b, p, n, key, vals) is Ok ==> rd_list_items(b, p, n, key, vals)->Ok_0.2 >= p,
        rd_list_items(b, p, n, key, vals) is Ok && p <= b.len() ==> rd_list_items(b, p, n, key, vals)->Ok_0.2 <= b.len(),
    decreases n,
{
    if n > 0 {
        match rd_byte(b, p) {
            Ok((t, q)) => {
                lemma_reads_advance(b, q);
                match rd_str(b, q) {
                    Ok((k, q2)) => {
                        lemma_reads_advance(b, q2);
                        match rd_str(b, q2) {
                            Ok((item, q3)) => {
                                lemma_list_items_advance(
                                    b,
                                    q3,
                                    (n - 1) as nat,
                                    if key is None { Some(k) } else { key },
                                    vals.push(RedisValue::Text(item)),
                                );
                            },
                            Err(_) => {},
                        }
                    },
                    Err(_) => {},
                }
            },
            Err(_) => {},
        }
    }
}

pub open spec fn is_string_token(t: Seq<char>) -> bool {
    ascii_upper(t) == "STRING"@
}

pub open spec fn is_list_token(t: Seq<char>) -> bool {
    ascii_upper(t) == "LIST"@
}

/// The records from `p` on, after the entries `d` and expiries `e` read
/// so far. The end of the data, or a `0xFF` byte, ends the records.
pub open spec fn rd_records(
    b: Seq<u8>,
    p: int,
    d: Seq<(Seq<char>, RedisValue)>,
    e: Seq<(Seq<char>, u64)>,
) -> Result<(Seq<(Seq<char>, RedisValue)>, Seq<(Seq<char>, u64)>), RdbError>
    decreases b.len() - p,
{
    if p < 0 || p >= b.len() {
        Ok((d, e))
    } else {
        let m = b[p];
        let q = p + 1;
        proof {
            lemma_reads_advance(b, q);
        }
        if m == 0xFE {
            match rd_len(b, q) {
                Ok((_, r)) => rd_records(b, r, d, e),
                Err(x) => Err(x),
            }
        } else if m == 0xFC {
            match rd_str(b, q) {
                Err(x) => Err(x),
                Ok((k, r)) => {
                    proof {
                        lemma_reads_advance(b, r);
                    }
                    match rd_expiry(b, r) {
                        Ok((t, r2)) => rd_records(b, r2, d, e.push((k, t))),
                        Err(x) => Err(x),
                    }
                },
            }
        } else if m == 0xFF {
            Ok((d, e))
        } else {
            match rd_str_first(b, q, m) {
                Err(x) => Err(x),
                Ok((tok, r)) => {
                    proof {
                        lemma_reads_advance(b, r);
                    }
                    if is_string_token(tok) {
                        match rd_byte(b, r) {
                            Err(x) => Err(x),
                            Ok((t, r1)) => if t != 0 {
                                Err(RdbError::StringValueMarker(t))
                            } else {
                                proof {
                                    lemma_reads_advance(b, r1);
                                }
                                match rd_str(b, r1) {
                                    Err(x) => Err(x),
                                    Ok((k, r2)) => {
                                        proof {
                                            lemma_reads_advance(b, r2);
                                        }
                                        match rd_str(b, r2) {
                                            Err(x) => Err(x),
                                            Ok((v, r3)) => rd_records(
                                                b,
                                                r3,
                                                d.push((k, RedisValue::Text(v))),
                                                e,
                                            ),
                                        }
                                    },
                                }
                            },
                        }
                    } else if is_list_token(tok) {
                        match rd_len(b, r) {
                            Err(x) => Err(x),
                            Ok((n, r1)) => {
                                proof {
                                    lemma_reads_advance(b, r);
                                    assert(r1 > r);
                                    lemma_list_items_advance(b, r1, n, None, Seq::<RedisValue>::empty());
                                }
                                match rd_list_items(b, r1, n, None, Seq::empty()) {
                                    Err(x) => Err(x),
                                    Ok((key, vals, r2)) => rd_records(
                                        b,
                                        r2,
                                        match key {
                                            Some(k) => d.push((k, RedisValue::List(vals))),
                                            None => d,
                                        },
                                        e,
                                    ),
                                }
                            },
                        }
                    } else {
                        match rd_byte(b, r) {
                            Err(x) => Err(x),
                            Ok((op, r1)) => if op != 0xFC {
                                Err(RdbError::UnknownOpcode(m))
                            } else {
                                proof {
                                    lemma_reads_advance(b, r1);
                                }
                                match rd_expiry(b, r1) {
                                    Err(x) => Err(x),
                                    Ok((t, r2)) => rd_records(b, r2, d, e.push((tok, t))),
                                }
                            },
                        }
                    }
                },
            }
        }
    }
}

/// What `load_rdb` reads from a snapshot: a 9-byte header that starts with
/// `REDIS`, then the records.
pub open spec fn spec_load(b: Seq<u8>) -> Result<(Seq<(Seq<char>, RedisValue)>, Seq<(Seq<char>, u64)>), RdbError> {
    if b.len() < 9 {
        Err(RdbError::UnexpectedEof)
    } else if b.subrange(0, 5) != seq![82u8, 69u8, 68u8, 73u8, 83u8] {
        Err(RdbError::InvalidHeader)
    } else {
        rd_records(b, 9, Seq::empty(), Seq::empty())
    }
}


/// Reads one byte at `p`.
fn read_byte(b: &[u8], p: usize) -> (r: Result<(u8, usize), RdbError>)
    ensures
        match rd_byte(b@, p as int) {
            Ok((v, q)) => r == Ok::<(u8, usize), RdbError>((v, q as usize)) && q <= b@.len(),
            Err(e) => r == Err::<(u8, usize), RdbError>(e),
        },
{
    let _ = b.len();
    if p < b.len() {
        Ok((b[p], p + 1))
    } else {
        Err(RdbError::UnexpectedEof)
    }
}

/// Reads the rest of a length whose first byte was `first`.
fn read_length_with_first(b: &[u8], p: usize, first: u8) -> (r: Result<(u64, usize), RdbError>)
    requires
        p <= b@.len(),
    ensures
        match rd_len_first(b@, p as int, first) {
            Ok((n, q)) => r == Ok::<(u64, usize), RdbError>((n as u64, q as usize)) && q <= b@.len()
                && n < 0x1_0000_0000,
            Err(e) => r == Err::<(u64, usize), RdbError>(e),
        },
{
    let _ = b.len();
    if first < 64 {
        return Ok((first as u64, p));
    }
    if first == 0x80 {
        if b.len() - p < 4 {
            return Err(RdbError::UnexpectedEof);
        }
        let v: u32 = ((b[p] as u32) << 24u32) | ((b[p + 1] as u32) << 16u32) | ((b[p + 2] as u32)
            << 8u32) | (b[p + 3] as u32);
        assert(v == be32_value(b@.subrange(p as int, p + 4)));
        return Ok((v as u64, p + 4));
    }
    Err(RdbError::UnsupportedLength(first))
}

/// Reads a length.
pub fn read_length(b: &[u8], p: usize) -> (r: Result<(u64, usize), RdbError>)
    requires
        p <= b@.len(),
    ensures
        match rd_len(b@, p as int) {
            Ok((n, q)) => r == Ok::<(u64, usize), RdbError>((n as u64, q as usize)) && q <= b@.len()
                && n < 0x1_0000_0000,
            Err(e) => r == Err::<(u64, usize), RdbError>(e),
        },
{
    let _ = b.len();
    match read_byte(b, p) {
        Ok((first, q)) => read_length_with_first(b, q, first),
        Err(e) => Err(e),
    }
}

/// Reads the rest of a string whose length's first byte was `first`.
fn read_string_with_first_len(b: &[u8], p: usize, first: u8) -> (r: Result<(String, usize), RdbError>)
    requires
        p <= b@.len(),
    ensures
        match rd_str_first(b@, p as int, first) {
            Ok((s, q)) => r matches Ok((t, q2)) && t@ == s && q2 == q && q <= b@.len(),
            Err(e) => r == Err::<(String, usize), RdbError>(e),
        },
{
    let _ = b.len();
    match read_length_with_first(b, p, first) {
        Ok((n, q)) => {
            if n > (b.len() - q) as u64 {
                return Err(RdbError::UnexpectedEof);
            }
            let end = q + n as usize;
            let t = utf8_lossy_string(slice_subrange(b, q, end));
            Ok((t, end))
        },
        Err(e) => Err(e),
    }
}

/// Reads a string.
fn read_string(b: &[u8], p: usize) -> (r: Result<(String, usize), RdbError>)
    requires
        p <= b@.len(),
    ensures
        match rd_str(b@, p as int) {
            Ok((s, q)) => r matches Ok((t, q2)) && t@ == s && q2 == q && q <= b@.len(),
            Err(e) => r == Err::<(String, usize), RdbError>(e),
        },
{
    let _ = b.len();
    match read_byte(b, p) {
        Ok((first, q)) => read_string_with_first_len(b, q, first),
        Err(e) => Err(e),
    }
}

/// Reads an expiry time.
fn read_expiry(b: &[u8], p: usize) -> (r: Result<(u64, usize), RdbError>)
    requires
        p <= b@.len(),
    ensures
        match rd_expiry(b@, p as int) {
            Ok((t, q)) => r == Ok::<(u64, usize), RdbError>((t, q as usize)) && q <= b@.len(),
            Err(e) => r == Err::<(u64, usize), RdbError>(e),
        },
{
    let _ = b.len();
    if b.len() - p < 8 {
        return Err(RdbError::UnexpectedEof);
    }
    let t: u64 = (b[p] as u64) | ((b[p + 1] as u64) << 8u64) | ((b[p + 2] as u64) << 16u64) | ((
    b[p + 3] as u64) << 24u64) | ((b[p + 4] as u64) << 32u64) | ((b[p + 5] as u64) << 40u64) | ((b[p
        + 6] as u64) << 48u64) | ((b[p + 7] as u64) << 56u64);
    assert(t == le64_value(b@.subrange(p as int, p + 8)));
    Ok((t, p + 8))
}

pub open spec fn key_view(k: Option<String>) -> Option<Seq<char>> {
    match k {
        Some(s) => Some(s@),
        None => None,
    }
}

/// Reads `n` list items: the key of the first and the values.
fn read_list_items(b: &[u8], p: usize, n: u64) -> (r: Result<(Option<String>, Vec<RedisObject>, usize), RdbError>)
    requires
        p <= b@.len(),
    ensures
        match rd_list_items(b@, p as int, n as nat, None, Seq::empty()) {
            Ok((k, vs, q)) => r matches Ok((k2, vs2, q2)) && key_view(k2) == k && object_values(vs2@)
                == vs && q2 == q && q <= b@.len(),
            Err(e) => r == Err::<(Option<String>, Vec<RedisObject>, usize), RdbError>(e),
        },
{
    let _ = b.len();
    let mut key: Option<String> = None;
    let mut values: Vec<RedisObject> = Vec::new();
    let mut pos = p;
    let mut i: u64 = 0;
    proof {
        lemma_object_values(values@);
        assert(object_values(values@) =~= Seq::<RedisValue>::empty());
    }
    while i < n
        invariant
            i <= n,
            pos <= b@.len(),
            b@.len() <= usize::MAX,
            rd_list_items(b@, pos as int, (n - i) as nat, key_view(key), object_values(values@))
                == rd_list_items(b@, p as int, n as nat, None, Seq::empty()),
        decreases n - i,
    {
        let (t, q) = match read_byte(b, pos) {
            Ok(x) => x,
            Err(e) => return Err(e),
        };
        if t != 0 {
            return Err(RdbError::ListItemMarker(t));
        }
        let (k, q2) = match read_string(b, q) {
            Ok(x) => x,
            Err(e) => return Err(e),
        };
        let (item, q3) = match read_string(b, q2) {
            Ok(x) => x,
            Err(e) => return Err(e),
        };
        let ghost kv = key_view(key);
        let ghost old_vals = values@;
        let ghost iv = item@;
        if key.is_none() {
            key = Some(k);
        }
        values.push(RedisObject::String(item));
        proof {
            lemma_object_values(old_vals);
            lemma_object_values(values@);
            assert(values@.subrange(0, old_vals.len() as int) =~= old_vals);
            assert(object_values(values@) =~= object_values(old_vals).push(RedisValue::Text(iv)));
        }
        pos = q3;
        i = i + 1;
    }
    Ok((key, values, pos))
}

/// Reads the records from position 9 on.
fn parse(b: &[u8]) -> (r: Result<(Vec<(String, RedisObject)>, Vec<(String, u64)>), RdbError>)
    requires
        b@.len() >= 9,
    ensures
        match rd_records(b@, 9, Seq::empty(), Seq::empty()) {
            Ok((d, e)) => r matches Ok((d2, e2)) && entry_views(d2@) == d && expiry_views(e2@) == e,
            Err(x) => r == Err::<(Vec<(String, RedisObject)>, Vec<(String, u64)>), RdbError>(x),
        },
{
    let _ = b.len();
    let mut db: Vec<(String, RedisObject)> = Vec::new();
    let mut expirations: Vec<(String, u64)> = Vec::new();
    let mut pos: usize = 9;
    assert(entry_views(db@) =~= Seq::<(Seq<char>, RedisValue)>::empty());
    assert(expiry_views(expirations@) =~= Seq::<(Seq<char>, u64)>::empty());
    loop
        invariant
            pos <= b@.len(),
            b@.len() <= usize::MAX,
            rd_records(b@, pos as int, entry_views(db@), expiry_views(expirations@)) == rd_records(
                b@,
                9,
                Seq::empty(),
                Seq::empty(),
            ),
        decreases b@.len() - pos,
    {
        let ghost dv = entry_views(db@);
        let ghost ev = expiry_views(expirations@);
        let ghost p0 = pos as int;
        proof {
            lemma_reads_advance(b@, p0 + 1);
        }
        let (marker, q) = match read_byte(b, pos) {
            Ok(x) => x,
            Err(_) => {
                return Ok((db, expirations));
            },
        };
        if marker == 0xFE {
            let (_db_index, r) = match read_length(b, q) {
                Ok(x) => x,
                Err(e) => return Err(e),
            };
            pos = r;
        } else if marker == 0xFC {
            let (key, r) = match read_string(b, q) {
                Ok(x) => x,
                Err(e) => return Err(e),
            };
            proof {
                lemma_reads_advance(b@, r as int);
            }
            let (at, r2) = match read_expiry(b, r) {
                Ok(x) => x,
                Err(e) => return Err(e),
            };
            let ghost kv = key@;
            expirations.push((key, at));
            assert(expiry_views(expirations@) =~= ev.push((kv, at)));
            pos = r2;
        } else if marker == 0xFF {
            return Ok((db, expirations));
        } else {
            let (token, r) = match read_string_with_first_len(b, q, marker) {
                Ok(x) => x,
                Err(e) => return Err(e),
            };
            proof {
                lemma_reads_advance(b@, r as int);
            }
            let upper = to_ascii_uppercase(token.as_str());
            if str_eq(upper.as_str(), "STRING") {
                let (t, r1) = match read_byte(b, r) {
                    Ok(x) => x,
                    Err(e) => return Err(e),
                };
                if t != 0x00 {
                    return Err(RdbError::StringValueMarker(t));
                }
                let (key, r2) = match read_string(b, r1) {
                    Ok(x) => x,
                    Err(e) => return Err(e),
                };
                let (value, r3) = match read_string(b, r2) {
                    Ok(x) => x,
                    Err(e) => return Err(e),
                };
                let ghost kv = key@;
                let ghost vv = RedisValue::Text(value@);
                db.push((key, RedisObject::String(value)));
                assert(entry_views(db@) =~= dv.push((kv, vv)));
                pos = r3;
            } else if str_eq(upper.as_str(), "LIST") {
                let (length, r1) = match read_length(b, r) {
                    Ok(x) => x,
                    Err(e) => return Err(e),
                };
                let (key, values, r2) = match read_list_items(b, r1, length) {
                    Ok(x) => x,
                    Err(e) => return Err(e),
                };
                proof {
                    lemma_list_items_advance(b@, r1 as int, length as nat, None, Seq::<RedisValue>::empty());
                }
                match key {
                    Some(k) => {
                        let ghost kv = k@;
                        let ghost vv = RedisValue::List(object_values(values@));
                        db.push((k, RedisObject::List(values)));
                        assert(entry_views(db@) =~= dv.push((kv, vv)));
                    },
                    None => {},
                }
                pos = r2;
            } else {
                let (op, r1) = match read_byte(b, r) {
                    Ok(x) => x,
                    Err(e) => return Err(e),
                };
                if op != 0xFC {
                    return Err(RdbError::UnknownOpcode(marker));
                }
                let (at, r2) = match read_expiry(b, r1) {
                    Ok(x) => x,
                    Err(e) => return Err(e),
                };
                let ghost kv = token@;
                expirations.push((token, at));
                assert(expiry_views(expirations@) =~= ev.push((kv, at)));
                pos = r2;
            }
        }
    }
}

/// Reads a snapshot: its entries and expiry times, in the order written.
fn read_snapshot(bytes: &[u8]) -> (r: Result<(Vec<(String, RedisObject)>, Vec<(String, u64)>), RdbError>)
    ensures
        match spec_load(bytes@) {
            Ok((d, e)) => r matches Ok((d2, e2)) && entry_views(d2@) == d && expiry_views(e2@) == e,
            Err(x) => r == Err::<(Vec<(String, RedisObject)>, Vec<(String, u64)>), RdbError>(x),
        },
{
    if bytes.len() < 9 {
        return Err(RdbError::UnexpectedEof);
    }
    if bytes[0] != 82 || bytes[1] != 69 || bytes[2] != 68 || bytes[3] != 73 || bytes[4] != 83 {
        assert(bytes@.subrange(0, 5) != seq![82u8, 69u8, 68u8, 73u8, 83u8]) by {
            if bytes@.subrange(0, 5) == seq![82u8, 69u8, 68u8, 73u8, 83u8] {
                assert(bytes@.subrange(0, 5)[0] == bytes@[0]);
                assert(bytes@.subrange(0, 5)[1] == bytes@[1]);
                assert(bytes@.subrange(0, 5)[2] == bytes@[2]);
                assert(bytes@.subrange(0, 5)[3] == bytes@[3]);
                assert(bytes@.subrange(0, 5)[4] == bytes@[4]);
            }
        }
        return Err(RdbError::InvalidHeader);
    }
    assert(bytes@.subrange(0, 5) =~= seq![82u8, 69u8, 68u8, 73u8, 83u8]);
    parse(bytes)
}

/// `r` is what reading the snapshot `b` at time `now` gives: the entries
/// and expiry times of `spec_load`, an expiry time already past read as
/// `now`; or its error.
pub open spec fn loaded_as(r: Result<(Vec<(String, RedisObject)>, Vec<(String, u64)>), RdbError>, b: Seq<u8>, now: u64) -> bool {
    match spec_load(b) {
        Ok((d, e)) => r matches Ok((d2, e2)) && entry_views(d2@) == d && expiry_views(e2@) == not_before(e, now),
        Err(x) => r == Err::<(Vec<(String, RedisObject)>, Vec<(String, u64)>), RdbError>(x),
    }
}

/// Reads a snapshot at time `now`: its entries and expiry times, in the
/// order written; an expiry time already past is read as `now`.
pub fn load_rdb_at(bytes: &[u8], now: u64) -> (r: Result<(Vec<(String, RedisObject)>, Vec<(String, u64)>), RdbError>)
    ensures
        loaded_as(r, bytes@, now),
{
    match read_snapshot(bytes) {
        Ok((d, e)) => {
            let mut out: Vec<(String, u64)> = Vec::new();
            let mut i: usize = 0;
            while i < e.len()
                invariant
                    i <= e@.len(),
                    out@.len() == i,
                    forall|j: int| 0 <= j < i ==> (#[trigger] out@[j]).0@ == e@[j].0@ && out@[j].1
                        == not_before_time(e@[j].1, now),
                decreases e@.len() - i,
            {
                let at = if e[i].1 < now { now } else { e[i].1 };
                out.push((e[i].0.clone(), at));
                i = i + 1;
            }
            assert(expiry_views(out@) =~= not_before(expiry_views(e@), now));
            Ok((d, out))
        },
        Err(x) => Err(x),
    }
}

/// `load_rdb_at` with the time taken from the clock.
pub fn load_rdb(bytes: &[u8]) -> (r: Result<(Vec<(String, RedisObject)>, Vec<(String, u64)>), RdbError>)
    ensures
        exists|now: u64| #[trigger] loaded_as(r, bytes@, now),
{
    let now = now_millis();
    load_rdb_at(bytes, now)
}

} // verus!
