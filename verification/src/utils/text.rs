//! Character-level helpers shared by the protocol parser, the command layer
//! and the snapshot format: decimal numbers, Unicode white space, ASCII case
//! and UTF-8 conversion.
use vstd::prelude::*;
use vstd::utf8::*;

verus! {

// ---------------------------------------------------------------------------
// Decimal digits
// ---------------------------------------------------------------------------

pub open spec fn is_digit(c: char) -> bool {
    '0' <= c && c <= '9'
}

pub open spec fn digit_value(c: char) -> nat {
    (c as int - '0' as int) as nat
}

pub open spec fn all_digits(s: Seq<char>) -> bool {
    forall|i: int| 0 <= i < s.len() ==> is_digit(#[trigger] s[i])
}

/// The number written by a string of decimal digits.
pub open spec fn digits_value(s: Seq<char>) -> nat
    decreases s.len(),
{
    if s.len() == 0 {
        0
    } else {
        digits_value(s.drop_last()) * 10 + digit_value(s.last())
    }
}

/// What `str::parse` gives for an unsigned integer type, before the range
/// check: an optional `+` followed by at least one decimal digit.
pub open spec fn unsigned_value(s: Seq<char>) -> Option<nat> {
    let d = if s.len() > 0 && s[0] == '+' { s.drop_first() } else { s };
    if d.len() > 0 && all_digits(d) {
        Some(digits_value(d))
    } else {
        None
    }
}

/// What `str::parse` gives for a signed integer type, before the range
/// check: an optional `+` or `-` followed by at least one decimal digit.
pub open spec fn signed_value(s: Seq<char>) -> Option<int> {
    if s.len() > 0 && s[0] == '-' {
        let d = s.drop_first();
        if d.len() > 0 && all_digits(d) {
            Some(-(digits_value(d) as int))
        } else {
            None
        }
    } else {
        match unsigned_value(s) {
            Some(v) => Some(v as int),
            None => None,
        }
    }
}

/// `str::parse::<i64>()`.
pub open spec fn parse_i64(s: Seq<char>) -> Option<i64> {
    match signed_value(s) {
        Some(v) => if i64::MIN <= v <= i64::MAX { Some(v as i64) } else { None },
        None => None,
    }
}

/// `str::parse::<usize>()`.
pub open spec fn parse_usize(s: Seq<char>) -> Option<usize> {
    match unsigned_value(s) {
        Some(v) => if v <= usize::MAX { Some(v as usize) } else { None },
        None => None,
    }
}

/// `str::parse::<i32>()`.
pub open spec fn parse_i32(s: Seq<char>) -> Option<i32> {
    match signed_value(s) {
        Some(v) => if i32::MIN <= v <= i32::MAX { Some(v as i32) } else { None },
        None => None,
    }
}

pub open spec fn digit_char(d: nat) -> char {
    (d + 48) as char
}

/// The decimal text of a natural number, without leading zeros.
pub open spec fn nat_text(n: nat) -> Seq<char>
    decreases n,
{
    if n < 10 {
        seq![digit_char(n)]
    } else {
        nat_text(n / 10).push(digit_char(n % 10))
    }
}

/// The decimal text of an integer, as `Display` writes it.
pub open spec fn int_text(n: int) -> Seq<char> {
    if n < 0 {
        seq!['-'] + nat_text((-n) as nat)
    } else {
        nat_text(n as nat)
    }
}

// ---------------------------------------------------------------------------
// White space and case
// ---------------------------------------------------------------------------

/// `char::is_whitespace`: the Unicode `White_Space` property.
pub open spec fn is_whitespace(c: char) -> bool {
    ||| '\u{9}' <= c && c <= '\u{d}'
    ||| c == ' '
    ||| c == '\u{85}'
    ||| c == '\u{a0}'
    ||| c == '\u{1680}'
    ||| '\u{2000}' <= c && c <= '\u{200a}'
    ||| c == '\u{2028}'
    ||| c == '\u{2029}'
    ||| c == '\u{202f}'
    ||| c == '\u{205f}'
    ||| c == '\u{3000}'
}

/// Number of white-space characters at the start of `s`.
pub open spec fn leading_ws(s: Seq<char>) -> nat
    decreases s.len(),
{
    if s.len() > 0 && is_whitespace(s[0]) {
        1 + leading_ws(s.drop_first())
    } else {
        0
    }
}

/// Number of white-space characters at the end of `s`.
pub open spec fn trailing_ws(s: Seq<char>) -> nat
    decreases s.len(),
{
    if s.len() > 0 && is_whitespace(s.last()) {
        1 + trailing_ws(s.drop_last())
    } else {
        0
    }
}

/// `str::trim`.
pub open spec fn trim(s: Seq<char>) -> Seq<char> {
    let t = s.skip(leading_ws(s) as int);
    t.take(t.len() - trailing_ws(t))
}

/// `str::to_ascii_uppercase`.
pub open spec fn ascii_upper_char(c: char) -> char {
    if 'a' <= c && c <= 'z' {
        ((c as int) - 32) as char
    } else {
        c
    }
}

pub open spec fn ascii_upper(s: Seq<char>) -> Seq<char> {
    Seq::new(s.len(), |i: int| ascii_upper_char(s[i]))
}

// ---------------------------------------------------------------------------
// Executable helpers
// ---------------------------------------------------------------------------

/// The characters of a string slice, in order.
pub fn chars_of(s: &str) -> (r: Vec<char>)
    ensures
        r@ == s@,
{
    broadcast use vstd::string::group_string_axioms;
    let mut r: Vec<char> = Vec::new();
    for c in it: s.chars()
        invariant
            r@ == it.seq().take(it.index() as int),
    {
        r.push(c);
    }
    r
}


proof fn lemma_digits_value_prefix(s: Seq<char>, k: int)
    requires
        0 <= k <= s.len(),
        all_digits(s),
    ensures
        digits_value(s.take(k)) <= digits_value(s),
    decreases s.len(),
{
    if k < s.len() {
        let d = s.drop_last();
        assert(s.take(k) =~= d.take(k));
        lemma_digits_value_prefix(d, k);
    } else {
        assert(s.take(k) =~= s);
    }
}

/// The value of the decimal digits `s[lo..hi]`, when there is at least one,
/// all are digits and the value fits in a `u64`.
pub fn digits_magnitude(s: &Vec<char>, lo: usize, hi: usize) -> (r: Option<u64>)
    requires
        lo <= hi <= s@.len(),
    ensures
        r == (if hi > lo && all_digits(s@.subrange(lo as int, hi as int)) && digits_value(
            s@.subrange(lo as int, hi as int),
        ) <= u64::MAX {
            Some(digits_value(s@.subrange(lo as int, hi as int)) as u64)
        } else {
            None::<u64>
        }),
{
    let ghost full = s@.subrange(lo as int, hi as int);
    if hi == lo {
        return None;
    }
    let mut acc: u64 = 0;
    let mut i = lo;
    while i < hi
        invariant
            lo <= i <= hi <= s@.len(),
            full == s@.subrange(lo as int, hi as int),
            all_digits(s@.subrange(lo as int, i as int)),
            acc == digits_value(s@.subrange(lo as int, i as int)),
        decreases hi - i,
    {
        let c = s[i];
        let ghost pre = s@.subrange(lo as int, i as int);
        let ghost next = s@.subrange(lo as int, i + 1);
        assert(next.drop_last() =~= pre);
        if !('0' <= c && c <= '9') {
            assert(full[i - lo] == c);
            return None;
        }
        let d = (c as u32 - '0' as u32) as u64;
        assert(d == digit_value(c));
        assert(all_digits(next));
        let m = acc.checked_mul(10);
        let a = match m {
            Some(m) => m.checked_add(d),
            None => None,
        };
        match a {
            Some(v) => {
                acc = v;
            },
            None => {
                proof {
                    assert(digits_value(next) > u64::MAX);
                    if all_digits(full) {
                        assert(full.take(i + 1 - lo) =~= next);
                        lemma_digits_value_prefix(full, i + 1 - lo);
                    }
                }
                return None;
            },
        }
        i = i + 1;
    }
    assert(s@.subrange(lo as int, i as int) =~= full);
    Some(acc)
}


/// `str::parse::<i64>()` on the characters `s[lo..hi]`.
pub fn parse_i64_chars(s: &Vec<char>, lo: usize, hi: usize) -> (r: Option<i64>)
    requires
        lo <= hi <= s@.len(),
    ensures
        r == parse_i64(s@.subrange(lo as int, hi as int)),
{
    let ghost sub = s@.subrange(lo as int, hi as int);
    if lo < hi && s[lo] == '-' {
        assert(sub.drop_first() =~= s@.subrange(lo + 1, hi as int));
        match digits_magnitude(s, lo + 1, hi) {
            Some(m) => {
                if m <= 9223372036854775807u64 {
                    Some(-(m as i64))
                } else if m == 9223372036854775808u64 {
                    Some(i64::MIN)
                } else {
                    None
                }
            },
            None => None,
        }
    } else {
        let start = if lo < hi && s[lo] == '+' {
            assert(sub.drop_first() =~= s@.subrange(lo + 1, hi as int));
            lo + 1
        } else {
            lo
        };
        match digits_magnitude(s, start, hi) {
            Some(m) => {
                if m <= 9223372036854775807u64 {
                    Some(m as i64)
                } else {
                    None
                }
            },
            None => None,
        }
    }
}

/// `str::parse::<i32>()` on the characters `s[lo..hi]`.
pub fn parse_i32_chars(s: &Vec<char>, lo: usize, hi: usize) -> (r: Option<i32>)
    requires
        lo <= hi <= s@.len(),
    ensures
        r == parse_i32(s@.subrange(lo as int, hi as int)),
{
    match parse_i64_chars(s, lo, hi) {
        Some(v) => {
            if -2147483648 <= v && v <= 2147483647 {
                Some(v as i32)
            } else {
                None
            }
        },
        None => None,
    }
}

/// `str::parse::<usize>()` on the characters `s[lo..hi]`.
pub fn parse_usize_chars(s: &Vec<char>, lo: usize, hi: usize) -> (r: Option<usize>)
    requires
        lo <= hi <= s@.len(),
    ensures
        r == parse_usize(s@.subrange(lo as int, hi as int)),
{
    let ghost sub = s@.subrange(lo as int, hi as int);
    let start = if lo < hi && s[lo] == '+' {
        assert(sub.drop_first() =~= s@.subrange(lo + 1, hi as int));
        lo + 1
    } else {
        lo
    };
    match digits_magnitude(s, start, hi) {
        Some(m) => {
            if m <= usize::MAX as u64 {
                Some(m as usize)
            } else {
                None
            }
        },
        None => None,
    }
}


/// `char::is_whitespace`.
pub fn is_whitespace_char(c: char) -> (r: bool)
    ensures
        r == is_whitespace(c),
{
    ('\u{9}' <= c && c <= '\u{d}') || c == ' ' || c == '\u{85}' || c == '\u{a0}' || c == '\u{1680}'
        || ('\u{2000}' <= c && c <= '\u{200a}') || c == '\u{2028}' || c == '\u{2029}' || c
        == '\u{202f}' || c == '\u{205f}' || c == '\u{3000}'
}

proof fn lemma_leading_ws(s: Seq<char>, a: int)
    requires
        0 <= a <= s.len(),
        forall|j: int| 0 <= j < a ==> is_whitespace(#[trigger] s[j]),
    ensures
        leading_ws(s) == a + leading_ws(s.skip(a)),
    decreases a,
{
    if a == 0 {
        assert(s.skip(0) =~= s);
    } else {
        let t = s.drop_first();
        assert forall|j: int| 0 <= j < a - 1 implies is_whitespace(#[trigger] t[j]) by {
            assert(t[j] == s[j + 1]);
        }
        lemma_leading_ws(t, a - 1);
        assert(t.skip(a - 1) =~= s.skip(a));
    }
}

proof fn lemma_trailing_ws(s: Seq<char>, b: int)
    requires
        0 <= b <= s.len(),
        forall|j: int| s.len() - b <= j < s.len() ==> is_whitespace(#[trigger] s[j]),
    ensures
        trailing_ws(s) == b + trailing_ws(s.take(s.len() - b)),
    decreases b,
{
    if b == 0 {
        assert(s.take(s.len() as int) =~= s);
    } else {
        let t = s.drop_last();
        assert forall|j: int| t.len() - (b - 1) <= j < t.len() implies is_whitespace(
            #[trigger] t[j],
        ) by {
            assert(t[j] == s[j]);
        }
        lemma_trailing_ws(t, b - 1);
        assert(t.take(t.len() - (b - 1)) =~= s.take(s.len() - b));
    }
}

/// The bounds `[lo, hi)` of `trim(s)` inside `s`.
pub fn trim_bounds(s: &Vec<char>) -> (r: (usize, usize))
    ensures
        r.0 <= r.1 <= s@.len(),
        s@.subrange(r.0 as int, r.1 as int) == trim(s@),
{
    let n = s.len();
    let mut a: usize = 0;
    while a < n && is_whitespace_char(s[a])
        invariant
            a <= n == s@.len(),
            forall|j: int| 0 <= j < a ==> is_whitespace(#[trigger] s@[j]),
        decreases n - a,
    {
        a = a + 1;
    }
    proof {
        lemma_leading_ws(s@, a as int);
    }
    let ghost t = s@.skip(a as int);
    let mut e: usize = n;
    while e > a && is_whitespace_char(s[e - 1])
        invariant
            a <= e <= n == s@.len(),
            t == s@.skip(a as int),
            forall|j: int| e <= j < n ==> is_whitespace(#[trigger] s@[j]),
        decreases e - a,
    {
        e = e - 1;
    }
    proof {
        let b = (n - e) as int;
        assert forall|j: int| t.len() - b <= j < t.len() implies is_whitespace(#[trigger] t[j]) by {
            assert(t[j] == s@[j + a]);
        }
        lemma_trailing_ws(t, b);
        let u = t.take(t.len() - b);
        if u.len() > 0 {
            assert(u.last() == s@[e - 1]);
        }
        assert(s@.subrange(a as int, e as int) =~= u);
    }
    (a, e)
}


/// Text equality of two string slices.
pub fn str_eq(a: &str, b: &str) -> (r: bool)
    ensures
        r == (a@ == b@),
{
    broadcast use vstd::utf8::group_utf8_lib;
    let x = a.as_bytes();
    let y = b.as_bytes();
    assert(x@ == encode_utf8(a@) && y@ == encode_utf8(b@));
    if x.len() != y.len() {
        return false;
    }
    let mut i: usize = 0;
    while i < x.len()
        invariant
            x@ == encode_utf8(a@),
            y@ == encode_utf8(b@),
            x@.len() == y@.len(),
            i <= x@.len(),
            forall|j: int| 0 <= j < i ==> x@[j] == y@[j],
        decreases x@.len() - i,
    {
        if x[i] != y[i] {
            assert(x@ != y@);
            return false;
        }
        i = i + 1;
    }
    assert(x@ =~= y@);
    proof {
        encode_utf8_decode_utf8(a@);
        encode_utf8_decode_utf8(b@);
    }
    true
}

fn digit_str(d: u64) -> (r: &'static str)
    requires
        d < 10,
    ensures
        r@ == seq![digit_char(d as nat)],
{
    proof {
        reveal_strlit("0");
        reveal_strlit("1");
        reveal_strlit("2");
        reveal_strlit("3");
        reveal_strlit("4");
        reveal_strlit("5");
        reveal_strlit("6");
        reveal_strlit("7");
        reveal_strlit("8");
        reveal_strlit("9");
    }
    if d == 0 {
        "0"
    } else if d == 1 {
        "1"
    } else if d == 2 {
        "2"
    } else if d == 3 {
        "3"
    } else if d == 4 {
        "4"
    } else if d == 5 {
        "5"
    } else if d == 6 {
        "6"
    } else if d == 7 {
        "7"
    } else if d == 8 {
        "8"
    } else {
        "9"
    }
}

/// Appends the decimal text of `n`.
pub fn append_nat(out: &mut String, n: u64)
    ensures
        final(out)@ == old(out)@ + nat_text(n as nat),
    decreases n,
{
    if n >= 10 {
        append_nat(out, n / 10);
    }
    out.append(digit_str(n % 10));
}

/// Appends the decimal text of `n`, with a leading `-` when it is negative.
pub fn append_int(out: &mut String, n: i64)
    ensures
        final(out)@ == old(out)@ + int_text(n as int),
{
    if n < 0 {
        proof {
            reveal_strlit("-");
        }
        out.append("-");
        let m: u64 = if n == i64::MIN {
            9223372036854775808u64
        } else {
            (-n) as u64
        };
        append_nat(out, m);
    } else {
        append_nat(out, n as u64);
    }
}

/// `String::from_utf8`: the text that `bytes` encode, when they are valid
/// UTF-8.
#[verifier::external_body]
pub fn utf8_to_string(bytes: &[u8]) -> (r: Option<String>)
    ensures
        r is Some <==> valid_utf8(bytes@),
        r matches Some(s) ==> s@ == decode_utf8(bytes@),
{
    String::from_utf8(bytes.to_vec()).ok()
}

/// `str::to_ascii_uppercase`.
#[verifier::external_body]
pub fn to_ascii_uppercase(s: &str) -> (r: String)
    ensures
        r@ == ascii_upper(s@),
{
    s.to_ascii_uppercase()
}

// ---------------------------------------------------------------------------
// Facts about decimal text and UTF-8 bytes
// ---------------------------------------------------------------------------

/// `nat_text(n)` is a non-empty run of digits that reads back as `n`.
pub proof fn lemma_nat_text(n: nat)
    ensures
        nat_text(n).len() > 0,
        all_digits(nat_text(n)),
        digits_value(nat_text(n)) == n,
    decreases n,
{
    let d = n % 10;
    assert(digit_char(d) as int == d + 48);
    assert(digit_value(digit_char(d)) == d);
    if n >= 10 {
        lemma_nat_text(n / 10);
        let t = nat_text(n / 10);
        assert(nat_text(n).drop_last() =~= t);
        assert(digits_value(nat_text(n)) == digits_value(t) * 10 + d);
        assert forall|i: int| 0 <= i < nat_text(n).len() implies is_digit(#[trigger] nat_text(n)[i]) by {
            if i < t.len() {
                assert(nat_text(n)[i] == t[i]);
            }
        }
    } else {
        assert(nat_text(n).drop_last() =~= Seq::<char>::empty());
        assert(digits_value(nat_text(n)) == digits_value(Seq::<char>::empty()) * 10 + d);
    }
}

/// The text of a number parses back to it.
pub proof fn lemma_int_text_parses(n: int)
    ensures
        signed_value(int_text(n)) == Some(n),
        n >= 0 ==> unsigned_value(int_text(n)) == Some(n as nat),
{
    if n < 0 {
        lemma_nat_text((-n) as nat);
        assert((seq!['-'] + nat_text((-n) as nat)).drop_first() =~= nat_text((-n) as nat));
    } else {
        lemma_nat_text(n as nat);
        assert(is_digit(nat_text(n as nat)[0]));
    }
}

/// Characters below `0x80`.
pub open spec fn is_ascii_text(s: Seq<char>) -> bool {
    forall|i: int| 0 <= i < s.len() ==> (#[trigger] s[i] as u32) < 0x80
}

pub proof fn lemma_scalar_bytes(x: u32)
    by (bit_vector)
    ensures
        x <= 0x7F ==> leading_byte_width_1(x) == x as u8,
        x <= 0x7F ==> (x as u8) as u32 == x,
        leading_byte_width_2(x) >= 0x80u8,
        leading_byte_width_3(x) >= 0x80u8,
        leading_byte_width_4(x) >= 0x80u8,
        last_continuation_byte(x) >= 0x80u8,
        second_last_continuation_byte(x) >= 0x80u8,
        third_last_continuation_byte(x) >= 0x80u8,
{
}

/// An ASCII text is encoded one byte per character, each byte the
/// character's code.
pub proof fn lemma_encode_ascii(s: Seq<char>)
    requires
        is_ascii_text(s),
    ensures
        encode_utf8(s).len() == s.len(),
        forall|i: int| 0 <= i < s.len() ==> encode_utf8(s)[i] == #[trigger] s[i] as u32,
    decreases s.len(),
{
    if s.len() > 0 {
        let x = s[0] as u32;
        lemma_scalar_bytes(x);
        lemma_encode_ascii(s.drop_first());
        assert forall|i: int| 0 <= i < s.len() implies encode_utf8(s)[i] == #[trigger] s[i] as u32 by {
            if i > 0 {
                assert(s[i] == s.drop_first()[i - 1]);
            }
        }
    }
}

/// A byte below `0x80` in the encoding of `s` is the code of a character
/// of `s`.
pub proof fn lemma_encode_low_byte(s: Seq<char>, i: int)
    requires
        0 <= i < encode_utf8(s).len(),
        encode_utf8(s)[i] < 0x80,
    ensures
        exists|j: int| 0 <= j < s.len() && encode_utf8(s)[i] == #[trigger] s[j] as u32,
    decreases s.len(),
{
    if s.len() > 0 {
        let x = s[0] as u32;
        lemma_scalar_bytes(x);
        char_is_scalar(s[0]);
        let head = encode_scalar(x);
        if i < head.len() {
            assert(encode_utf8(s)[i] == head[i]);
            assert(encode_utf8(s)[i] == s[0] as u32);
        } else {
            assert(encode_utf8(s)[i] == encode_utf8(s.drop_first())[i - head.len()]);
            lemma_encode_low_byte(s.drop_first(), i - head.len());
            let j = choose|j: int| 0 <= j < s.drop_first().len() && encode_utf8(s.drop_first())[i - head.len()] == #[trigger] s.drop_first()[j] as u32;
            assert(s.drop_first()[j] == s[j + 1]);
        }
    }
}

} // verus!
